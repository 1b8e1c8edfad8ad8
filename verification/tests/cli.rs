//! The command line: what is asked for, what is done and what is printed.

use macfs::args::{
    fork_flag, parse, parse_code, parse_size, positionals, take_flag, take_opt, usage, usage_err,
    usage_line, BootAction, Command, Failure,
};
use macfs::cli;
use macfs::{Fork, ImageFormat, MacTimestamp, MfsError, MfsVolume};

fn words(line: &[&str]) -> Vec<String> {
    line.iter().map(|w| w.to_string()).collect()
}

fn command(line: &[&str]) -> Command {
    parse(words(line)).expect("a command")
}

fn usage_text(line: &[&str]) -> String {
    match parse(words(line)) {
        Err(Failure::Usage(m)) => m,
        other => panic!("expected a usage failure, got {other:?}"),
    }
}

fn error_text(line: &[&str]) -> String {
    match parse(words(line)) {
        Err(Failure::Error(m)) => m,
        other => panic!("expected an error, got {other:?}"),
    }
}

// --------------------------------------------------------------------- arguments

#[test]
fn flags_and_options_are_taken_out() {
    let mut args = words(&["a", "-l", "b", "-l"]);
    assert!(take_flag(&mut args, "-l"));
    assert_eq!(args, ["a", "b", "-l"]);
    assert!(!take_flag(&mut args, "--dc42"));
    assert_eq!(args, ["a", "b", "-l"]);

    let mut args = words(&["x", "--name", "N", "--type=TEXT", "y"]);
    assert_eq!(take_opt(&mut args, "--name"), Ok(Some("N".to_string())));
    assert_eq!(take_opt(&mut args, "--type"), Ok(Some("TEXT".to_string())));
    assert_eq!(take_opt(&mut args, "--creator"), Ok(None));
    assert_eq!(args, ["x", "y"]);

    let mut args = words(&["--name=", "--names=1", "--name"]);
    assert_eq!(take_opt(&mut args, "--name"), Ok(Some(String::new())));
    assert_eq!(args, ["--names=1", "--name"]);
    assert_eq!(take_opt(&mut args, "--name"), Err("--name needs a value".to_string()));
    assert_eq!(args, ["--names=1", "--name"]);

    let mut args = words(&["--rsrc", "f"]);
    assert_eq!(fork_flag(&mut args), Fork::Resource);
    assert_eq!(fork_flag(&mut args), Fork::Data);
}

#[test]
fn what_is_left_must_be_positional() {
    assert_eq!(positionals(words(&["a", "-"]), "cat", 2), Ok(words(&["a", "-"])));
    assert_eq!(
        positionals(words(&["a"]), "cat", 2),
        Err(Failure::Usage("usage: mfs cat <image> <name> [--rsrc]".to_string()))
    );
    assert_eq!(
        positionals(words(&["a", "-x"]), "cat", 2),
        Err(Failure::Usage(
            "mfs cat: unknown option -x\nusage: mfs cat <image> <name> [--rsrc]".to_string()
        ))
    );
    assert_eq!(usage_line("nope"), "usage: mfs nope ");
    assert_eq!(
        usage_err("check", "oops"),
        Failure::Usage("mfs check: oops\nusage: mfs check <image>".to_string())
    );
}

#[test]
fn codes_are_four_ascii_characters() {
    assert_eq!(parse_code(None, "--type"), Ok(*b"????"));
    assert_eq!(parse_code(Some("zsys"), "--type"), Ok(*b"zsys"));
    for bad in ["", "abc", "abcde", "caf\u{e9}"] {
        assert_eq!(
            parse_code(Some(bad), "--type"),
            Err(Failure::Error(format!(
                "--type must be exactly four ASCII characters, got {bad:?}"
            )))
        );
    }
}

#[test]
fn sizes_are_bytes_or_kilobytes() {
    assert_eq!(parse_size("400k"), Ok(409_600));
    assert_eq!(parse_size("800K"), Ok(819_200));
    assert_eq!(parse_size("+512"), Ok(512));
    assert_eq!(parse_size("0"), Ok(0));
    assert_eq!(parse_size("0000000000000000042"), Ok(42));
    assert_eq!(parse_size("4294967295"), Ok(u32::MAX));
    assert_eq!(parse_size("4194303k"), Ok(4_294_966_272));
    for bad in ["", "k", "+", "+k", "-1", "4294967296", "4194304k", "4x", "1 k", "99999999999999999999"] {
        assert_eq!(
            parse_size(bad),
            Err(Failure::Error(format!("--size {bad:?} is not 400k, 800k or a byte count")))
        );
    }
}

#[test]
fn the_overview_lists_every_command() {
    let text = usage();
    assert!(text.starts_with("usage: mfs <command> [arguments]\n\n  info       <image>\n  ls         "));
    assert!(text.contains("\n  bootblocks <image> [--export FILE | --import FILE]\n\nImages may be"));
    assert!(text.ends_with("preserved when it is written back."));
    assert_eq!(usage_text(&[]), text);
    assert_eq!(
        usage_text(&["fsck", "x"]),
        format!("mfs: unknown command \"fsck\"\n{text}")
    );
    for help in ["help", "-h", "--help"] {
        assert_eq!(command(&[help, "whatever"]), Command::Help);
    }
}

#[test]
fn every_command_is_understood() {
    let s = |t: &str| t.to_string();
    assert_eq!(command(&["info", "i"]), Command::Info { image: s("i") });
    assert_eq!(command(&["ls", "-l", "i"]), Command::Ls { image: s("i"), long: true });
    assert_eq!(
        command(&["cat", "i", "--rsrc", "n"]),
        Command::Cat { image: s("i"), name: s("n"), fork: Fork::Resource }
    );
    assert_eq!(
        command(&["extract", "i", "n", "-o", "p"]),
        Command::Extract { image: s("i"), name: s("n"), fork: Fork::Data, out: Some(s("p")) }
    );
    assert_eq!(
        command(&["add", "i", "h", "--type=TEXT", "--rsrc", "r", "--name", "N"]),
        Command::Add {
            image: s("i"),
            hostfile: s("h"),
            name: Some(s("N")),
            type_code: *b"TEXT",
            creator: *b"????",
            rsrc: Some(s("r")),
        }
    );
    assert_eq!(
        command(&["rm", "i", "n", "--force"]),
        Command::Rm { image: s("i"), name: s("n"), force: true }
    );
    assert_eq!(
        command(&["mv", "i", "a", "b"]),
        Command::Mv { image: s("i"), from: s("a"), to: s("b") }
    );
    assert_eq!(
        command(&["mkfs", "i"]),
        Command::Mkfs {
            image: s("i"),
            size: 409_600,
            name: s("Untitled"),
            format: ImageFormat::Raw,
            force: false,
        }
    );
    assert_eq!(
        command(&["mkfs", "--size=800k", "i", "--name", "Disk", "--force", "--dc42"]),
        Command::Mkfs {
            image: s("i"),
            size: 819_200,
            name: s("Disk"),
            format: ImageFormat::DiskCopy42,
            force: true,
        }
    );
    assert_eq!(command(&["check", "i"]), Command::Check { image: s("i") });
    assert_eq!(
        command(&["bootblocks", "i"]),
        Command::BootBlocks { image: s("i"), action: BootAction::Show }
    );
    assert_eq!(
        command(&["bootblocks", "--import", "f", "i"]),
        Command::BootBlocks { image: s("i"), action: BootAction::Import(s("f")) }
    );
    assert_eq!(
        command(&["bootblocks", "--export", "f", "i"]),
        Command::BootBlocks { image: s("i"), action: BootAction::Export(s("f")) }
    );
}

#[test]
fn wrong_command_lines_are_refused() {
    assert_eq!(usage_text(&["info"]), "usage: mfs info <image>");
    assert_eq!(
        usage_text(&["extract", "i", "n", "-o"]),
        "mfs extract: -o needs a value\nusage: mfs extract <image> <name> [--rsrc] [-o PATH]"
    );
    assert_eq!(
        usage_text(&["bootblocks", "i", "--import", "a", "--export", "b"]),
        "mfs bootblocks: --export and --import are mutually exclusive\n\
         usage: mfs bootblocks <image> [--export FILE | --import FILE]"
    );
    assert_eq!(
        usage_text(&["ls", "i", "-x"]),
        "mfs ls: unknown option -x\nusage: mfs ls <image> [-l]"
    );
    assert_eq!(
        error_text(&["add", "i", "h", "--creator", "long one"]),
        "--creator must be exactly four ASCII characters, got \"long one\""
    );
    assert_eq!(
        error_text(&["mkfs", "i", "--size", "huge"]),
        "--size \"huge\" is not 400k, 800k or a byte count"
    );
}

// ---------------------------------------------------------------- what is printed

fn sample() -> MfsVolume {
    let mut vol =
        macfs::mkfs::format_at(409_600, "My Disk", ImageFormat::Raw, MacTimestamp(0)).unwrap();
    vol.create_file_at("Read Me", *b"TEXT", *b"MACA", MacTimestamp(2_082_844_800)).unwrap();
    vol.write_fork_at("Read Me", Fork::Data, b"hello", MacTimestamp(2_082_844_801)).unwrap();
    vol.create_file_at("Odd", [0x41, 0x00, 0x20, 0xFF], *b"ab~!", MacTimestamp(1)).unwrap();
    vol.set_locked_at("Odd", true, MacTimestamp(2)).unwrap();
    vol
}

#[test]
fn info_is_printed_line_by_line() {
    let mut vol = sample();
    assert_eq!(
        cli::info_text(&vol.info(), vol.boot_blocks()),
        "volume:      My Disk\n\
         format:      raw sector image\n\
         created:     1904-01-01 00:00:00\n\
         modified:    1904-01-01 00:00:02\n\
         files:       2\n\
         block size:  1024 bytes\n\
         blocks:      391 total, 390 free (399360 bytes)\n\
         bootable:    no\n"
    );
    let mut boot = [0u8; 1024];
    boot[..2].copy_from_slice(b"LK");
    vol.set_boot_blocks(&boot).unwrap();
    assert!(cli::info_text(&vol.info(), vol.boot_blocks()).ends_with("bootable:    yes\n"));
    let dc = MfsVolume::format(409_600, "D", ImageFormat::DiskCopy42).unwrap();
    assert!(cli::info_text(&dc.info(), dc.boot_blocks()).contains("\nformat:      DiskCopy 4.2\n"));
}

#[test]
fn listings_are_short_or_long() {
    let vol = sample();
    assert_eq!(cli::ls_text(&vol.files(), false), "Read Me\nOdd\n");
    assert_eq!(
        cli::ls_text(&vol.files(), true),
        "TYPE CREA      DATA      RSRC  MODIFIED                 NAME\n\
         TEXT MACA         5         0  1970-01-01 00:00:01      Read Me\n\
         A. . ab~!         0         0  1904-01-01 00:00:01  [L] Odd\n"
    );
    assert_eq!(cli::code(b"zsys"), "zsys");
}

#[test]
fn extracted_forks_have_a_path() {
    assert_eq!(cli::extract_path("a/b c", Fork::Data), "a_b c");
    assert_eq!(cli::extract_path("a/b/c", Fork::Resource), "a_b_c.rsrc");
    assert_eq!(cli::extracted_text(12, "out"), "wrote 12 bytes to out");
}

#[test]
fn adding_writes_both_forks() {
    let mut vol = sample();
    let added = cli::add(&mut vol, "New", *b"TEXT", *b"MACA", b"data", Some(b"rsrc!"));
    assert_eq!(added, Some(Ok(())));
    assert_eq!(vol.read_fork("new", Fork::Data).unwrap(), b"data");
    assert_eq!(vol.read_fork("new", Fork::Resource).unwrap(), b"rsrc!");
    assert_eq!(
        cli::add(&mut vol, "NEW", *b"TEXT", *b"MACA", b"", None),
        Some(Err(Failure::Error(
            "file already exists: NEW (delete it first with `mfs rm`)".to_string()
        )))
    );
    assert_eq!(
        cli::add(&mut vol, "a:b", *b"TEXT", *b"MACA", b"", None),
        Some(Err(Failure::Error(
            "invalid name: \"a:b\" contains a forbidden byte 0x3a".to_string()
        )))
    );
    assert_eq!(
        cli::add(&mut vol, "Huge", *b"TEXT", *b"MACA", &vec![0u8; 400_000], None),
        Some(Err(Failure::Error(
            "volume full: need 391 allocation blocks, 388 free".to_string()
        )))
    );
    assert_eq!(cli::added_text("New", 4, 5), "added New (4 bytes data, 5 bytes resource)");
}

#[test]
fn removing_may_be_forced() {
    let mut vol = sample();
    assert_eq!(
        cli::rm(&mut vol, "Odd", false),
        Err(Failure::Error("file is locked: Odd".to_string()))
    );
    assert_eq!(cli::rm(&mut vol, "odd", true), Ok(()));
    assert_eq!(cli::rm(&mut vol, "Read Me", true), Ok(()));
    assert_eq!(
        cli::rm(&mut vol, "Read Me", true),
        Err(Failure::Error("file not found: Read Me".to_string()))
    );
    assert_eq!(vol.info().free_blocks, 391);
    assert_eq!(cli::removed_text("Odd"), "deleted Odd");
    assert_eq!(cli::renamed_text("a", "b"), "renamed a to b");
}

#[test]
fn creating_does_not_overwrite() {
    assert_eq!(cli::may_create("i", false, false), Ok(()));
    assert_eq!(cli::may_create("i", true, true), Ok(()));
    assert_eq!(
        cli::may_create("i", false, true),
        Err(Failure::Error("i already exists (pass --force to overwrite it)".to_string()))
    );
    assert_eq!(
        cli::created_text("i", 409_600, "My \"Disk\"", ImageFormat::DiskCopy42),
        "created i: 409600 byte DiskCopy 4.2 volume \"My \\\"Disk\\\"\""
    );
    assert_eq!(
        cli::created_text("i", 512, "D", ImageFormat::Raw),
        "created i: 512 byte raw volume \"D\""
    );
}

#[test]
fn checks_are_counted() {
    assert_eq!(cli::check_text(&Vec::new()), "ok\n");
    assert_eq!(
        cli::check_text(&words(&["one", "two"])),
        "one\ntwo\n2 problem(s) found\n"
    );
}

#[test]
fn boot_blocks_are_described_and_measured() {
    let mut blocks = [0u8; 1024];
    assert_eq!(
        cli::boot_text(&blocks),
        "not bootable (no boot code; the boot block region is all zeros)"
    );
    blocks[1023] = 1;
    assert_eq!(
        cli::boot_text(&blocks),
        "not bootable (no 'LK' signature, but the boot block region is not empty)"
    );
    blocks[..2].copy_from_slice(b"LK");
    assert_eq!(cli::boot_text(&blocks), "bootable: yes ('LK' boot block signature present)");
    assert_eq!(cli::boot_import("bb", &blocks), Ok(blocks));
    assert_eq!(
        cli::boot_import("bb", &blocks[..1000]),
        Err(Failure::Error(
            "bb: boot blocks must be exactly 1024 bytes, this file is 1000".to_string()
        ))
    );
    assert_eq!(cli::exported_text(1024, "bb"), "wrote 1024 boot block bytes to bb");
    assert_eq!(cli::imported_text("bb"), "installed 1024 boot block bytes from bb");
}

#[test]
fn failures_name_what_failed() {
    assert_eq!(
        cli::open_failure("disk.img", &MfsError::UnsupportedHfs),
        Failure::Error(
            "disk.img: HFS volume detected (signature 0x4244): HFS is not supported".to_string()
        )
    );
    let io = MfsError::from(std::io::Error::new(std::io::ErrorKind::Other, "gone"));
    assert_eq!(cli::open_failure("i", &io), Failure::Error("i: I/O error: gone".to_string()));
    assert_eq!(cli::refused(&io), Failure::Error("I/O error: gone".to_string()));
    assert_eq!(
        cli::refused(&MfsError::DirectoryFull),
        Failure::Error("file directory is full".to_string())
    );
    assert_eq!(cli::host_failure("p", "denied"), Failure::Error("p: denied".to_string()));
}
