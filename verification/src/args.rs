//! The command line of `mfs`: which command it asks for, or what is wrong with
//! it.

use vstd::prelude::*;
use vstd::string::*;

use crate::macroman;
use crate::text;
use crate::text::{chars, from_chars, push_right, quote, same};
use crate::volume::{Fork, ImageFormat, MfsVolume};

verus! {

/// How a command can fail: with the operation refused (exit 1) or with the
/// command line itself malformed (exit 2).
#[derive(Debug, Clone, PartialEq, Eq)]
pub enum Failure {
    /// The operation was refused, with this message.
    Error(String),
    /// The command line is malformed, with this message.
    Usage(String),
}

/// A failure, its message as a sequence of characters.
#[verifier::ext_equal]
pub enum FailureView {
    Error(Seq<char>),
    Usage(Seq<char>),
}

impl View for Failure {
    type V = FailureView;

    open spec fn view(&self) -> FailureView {
        match *self {
            Failure::Error(m) => FailureView::Error(m@),
            Failure::Usage(m) => FailureView::Usage(m@),
        }
    }
}

/// A result with everything in it as it is seen in contracts.
pub open spec fn outcome<T: View>(r: core::result::Result<T, Failure>) -> core::result::Result<
    T::V,
    FailureView,
> {
    match r {
        Ok(t) => Ok(t@),
        Err(e) => Err(e@),
    }
}

/// What to do with boot blocks.
#[derive(Debug, Clone, PartialEq, Eq)]
pub enum BootAction {
    /// Say whether the volume is bootable.
    Show,
    /// Write the boot blocks to a host file.
    Export(String),
    /// Install the boot blocks of a host file.
    Import(String),
}

/// One command, with its arguments.
#[derive(Debug, Clone, PartialEq, Eq)]
pub enum Command {
    /// Print the overview.
    Help,
    /// Describe a volume.
    Info {
        /// The image.
        image: String,
    },
    /// List the files.
    Ls {
        /// The image.
        image: String,
        /// Whether to list more than the names.
        long: bool,
    },
    /// Print a fork.
    Cat {
        /// The image.
        image: String,
        /// The file.
        name: String,
        /// The fork.
        fork: Fork,
    },
    /// Copy a fork to a host file.
    Extract {
        /// The image.
        image: String,
        /// The file.
        name: String,
        /// The fork.
        fork: Fork,
        /// The host file, where it was named.
        out: Option<String>,
    },
    /// Copy a host file to the volume.
    Add {
        /// The image.
        image: String,
        /// The host file.
        hostfile: String,
        /// The name of the new file, where it was given.
        name: Option<String>,
        /// The Finder type.
        type_code: [u8; 4],
        /// The Finder creator.
        creator: [u8; 4],
        /// The host file with the resource fork, where there is one.
        rsrc: Option<String>,
    },
    /// Delete a file.
    Rm {
        /// The image.
        image: String,
        /// The file.
        name: String,
        /// Whether to delete it although it is locked.
        force: bool,
    },
    /// Rename a file.
    Mv {
        /// The image.
        image: String,
        /// The file.
        from: String,
        /// Its new name.
        to: String,
    },
    /// Create a volume.
    Mkfs {
        /// The image.
        image: String,
        /// Its size in bytes.
        size: u32,
        /// The name of the volume.
        name: String,
        /// Its container.
        format: ImageFormat,
        /// Whether to overwrite an image that exists.
        force: bool,
    },
    /// Check a volume.
    Check {
        /// The image.
        image: String,
    },
    /// Look at, copy or replace the boot blocks.
    BootBlocks {
        /// The image.
        image: String,
        /// What to do.
        action: BootAction,
    },
}

/// What to do with boot blocks, as it is seen in contracts.
#[verifier::ext_equal]
pub enum BootActionView {
    Show,
    Export(Seq<char>),
    Import(Seq<char>),
}

/// A command as it is seen in contracts.
#[verifier::ext_equal]
pub enum CommandView {
    Help,
    Info { image: Seq<char> },
    Ls { image: Seq<char>, long: bool },
    Cat { image: Seq<char>, name: Seq<char>, fork: Fork },
    Extract { image: Seq<char>, name: Seq<char>, fork: Fork, out: Option<Seq<char>> },
    Add {
        image: Seq<char>,
        hostfile: Seq<char>,
        name: Option<Seq<char>>,
        type_code: Seq<u8>,
        creator: Seq<u8>,
        rsrc: Option<Seq<char>>,
    },
    Rm { image: Seq<char>, name: Seq<char>, force: bool },
    Mv { image: Seq<char>, from: Seq<char>, to: Seq<char> },
    Mkfs { image: Seq<char>, size: u32, name: Seq<char>, format: ImageFormat, force: bool },
    Check { image: Seq<char> },
    BootBlocks { image: Seq<char>, action: BootActionView },
}

/// The characters of a string that may be missing.
pub open spec fn maybe(s: Option<String>) -> Option<Seq<char>> {
    match s {
        Some(s) => Some(s@),
        None => None,
    }
}

impl View for BootAction {
    type V = BootActionView;

    open spec fn view(&self) -> BootActionView {
        match *self {
            BootAction::Show => BootActionView::Show,
            BootAction::Export(p) => BootActionView::Export(p@),
            BootAction::Import(p) => BootActionView::Import(p@),
        }
    }
}

impl View for Command {
    type V = CommandView;

    open spec fn view(&self) -> CommandView {
        match *self {
            Command::Help => CommandView::Help,
            Command::Info { image } => CommandView::Info { image: image@ },
            Command::Ls { image, long } => CommandView::Ls { image: image@, long },
            Command::Cat { image, name, fork } => CommandView::Cat {
                image: image@,
                name: name@,
                fork,
            },
            Command::Extract { image, name, fork, out } => CommandView::Extract {
                image: image@,
                name: name@,
                fork,
                out: maybe(out),
            },
            Command::Add { image, hostfile, name, type_code, creator, rsrc } => CommandView::Add {
                image: image@,
                hostfile: hostfile@,
                name: maybe(name),
                type_code: type_code@,
                creator: creator@,
                rsrc: maybe(rsrc),
            },
            Command::Rm { image, name, force } => CommandView::Rm {
                image: image@,
                name: name@,
                force,
            },
            Command::Mv { image, from, to } => CommandView::Mv {
                image: image@,
                from: from@,
                to: to@,
            },
            Command::Mkfs { image, size, name, format, force } => CommandView::Mkfs {
                image: image@,
                size,
                name: name@,
                format,
                force,
            },
            Command::Check { image } => CommandView::Check { image: image@ },
            Command::BootBlocks { image, action } => CommandView::BootBlocks {
                image: image@,
                action: action@,
            },
        }
    }
}

// ------------------------------------------------------------------------- usage

/// The arguments that a command takes, as its usage line shows them.
pub open spec fn synopsis(cmd: Seq<char>) -> Seq<char> {
    if cmd == "info"@ {
        "<image>"@
    } else if cmd == "ls"@ {
        "<image> [-l]"@
    } else if cmd == "cat"@ {
        "<image> <name> [--rsrc]"@
    } else if cmd == "extract"@ {
        "<image> <name> [--rsrc] [-o PATH]"@
    } else if cmd == "add"@ {
        "<image> <hostfile> [--name N] [--type XXXX] [--creator XXXX] [--rsrc HOSTFILE]"@
    } else if cmd == "rm"@ {
        "<image> <name> [--force]"@
    } else if cmd == "mv"@ {
        "<image> <old> <new>"@
    } else if cmd == "mkfs"@ {
        "<image> [--size 400k|800k|BYTES] [--name NAME] [--dc42] [--force]"@
    } else if cmd == "check"@ {
        "<image>"@
    } else if cmd == "bootblocks"@ {
        "<image> [--export FILE | --import FILE]"@
    } else {
        ""@
    }
}

/// The usage line of a command.
pub open spec fn line_for(cmd: Seq<char>) -> Seq<char> {
    "usage: mfs "@ + cmd + " "@ + synopsis(cmd)
}

/// The complaint about a command that was called wrongly.
pub open spec fn complaint(cmd: Seq<char>, problem: Seq<char>) -> FailureView {
    FailureView::Usage("mfs "@ + cmd + ": "@ + problem + "\n"@ + line_for(cmd))
}

/// The line of a command in the overview.
pub open spec fn overview_line(cmd: Seq<char>) -> Seq<char> {
    "  "@ + text::pad_right(cmd, 10) + " "@ + synopsis(cmd) + "\n"@
}

/// The overview.
pub open spec fn overview() -> Seq<char> {
    "usage: mfs <command> [arguments]\n\n"@ + overview_line("info"@) + overview_line("ls"@)
        + overview_line("cat"@) + overview_line("extract"@) + overview_line("add"@)
        + overview_line("rm"@) + overview_line("mv"@) + overview_line("mkfs"@) + overview_line(
        "check"@,
    ) + overview_line("bootblocks"@)
        + "\nImages may be raw sector dumps or DiskCopy 4.2 containers; the container is\ndetected when the image is opened and preserved when it is written back."@
}

/// The arguments that a command takes.
fn arguments(cmd: &str) -> (s: &'static str)
    ensures
        s@ == synopsis(cmd@),
{
    if same(cmd, "info") {
        "<image>"
    } else if same(cmd, "ls") {
        "<image> [-l]"
    } else if same(cmd, "cat") {
        "<image> <name> [--rsrc]"
    } else if same(cmd, "extract") {
        "<image> <name> [--rsrc] [-o PATH]"
    } else if same(cmd, "add") {
        "<image> <hostfile> [--name N] [--type XXXX] [--creator XXXX] [--rsrc HOSTFILE]"
    } else if same(cmd, "rm") {
        "<image> <name> [--force]"
    } else if same(cmd, "mv") {
        "<image> <old> <new>"
    } else if same(cmd, "mkfs") {
        "<image> [--size 400k|800k|BYTES] [--name NAME] [--dc42] [--force]"
    } else if same(cmd, "check") {
        "<image>"
    } else if same(cmd, "bootblocks") {
        "<image> [--export FILE | --import FILE]"
    } else {
        ""
    }
}

/// The usage line of a command.
pub fn usage_line(cmd: &str) -> (s: String)
    ensures
        s@ == line_for(cmd@),
{
    let mut s = String::from_str("usage: mfs ");
    s.append(cmd);
    s.append(" ");
    s.append(arguments(cmd));
    s
}

/// The complaint about a command that was called wrongly.
pub fn usage_err(cmd: &str, problem: &str) -> (f: Failure)
    ensures
        f@ == complaint(cmd@, problem@),
{
    let mut m = String::from_str("mfs ");
    m.append(cmd);
    m.append(": ");
    m.append(problem);
    m.append("\n");
    m.append(usage_line(cmd).as_str());
    Failure::Usage(m)
}

/// Appends the line of a command in the overview.
fn push_overview_line(s: &mut String, cmd: &str)
    ensures
        final(s)@ == old(s)@ + overview_line(cmd@),
{
    let mut line = String::from_str("  ");
    push_right(&mut line, cmd, 10);
    line.append(" ");
    line.append(arguments(cmd));
    line.append("\n");
    s.append(line.as_str());
}

/// The overview.
pub fn usage() -> (s: String)
    ensures
        s@ == overview(),
{
    let mut s = String::from_str("usage: mfs <command> [arguments]\n\n");
    push_overview_line(&mut s, "info");
    push_overview_line(&mut s, "ls");
    push_overview_line(&mut s, "cat");
    push_overview_line(&mut s, "extract");
    push_overview_line(&mut s, "add");
    push_overview_line(&mut s, "rm");
    push_overview_line(&mut s, "mv");
    push_overview_line(&mut s, "mkfs");
    push_overview_line(&mut s, "check");
    push_overview_line(&mut s, "bootblocks");
    s.append(
        "\nImages may be raw sector dumps or DiskCopy 4.2 containers; the container is\ndetected when the image is opened and preserved when it is written back.",
    );
    s
}

// ------------------------------------------------------------------------- flags

/// The first argument, from the `from`-th on, that is `name`.
pub open spec fn flag_index(args: Seq<Seq<char>>, name: Seq<char>, from: nat) -> Option<nat>
    decreases args.len() - from,
{
    if from >= args.len() {
        None
    } else if args[from as int] == name {
        Some(from)
    } else {
        flag_index(args, name, from + 1)
    }
}

/// Whether a flag is among the arguments, and the arguments without it.
pub open spec fn flag_taken(args: Seq<Seq<char>>, name: Seq<char>) -> (bool, Seq<Seq<char>>) {
    match flag_index(args, name, 0) {
        Some(i) => (true, args.remove(i as int)),
        None => (false, args),
    }
}

/// Remove `name` from `args` if present, reporting whether it was.
pub fn take_flag(args: &mut Vec<String>, name: &str) -> (found: bool)
    ensures
        (found, text::texts(final(args)@)) == flag_taken(text::texts(old(args)@), name@),
{
    let mut i: usize = 0;
    while i < args.len()
        invariant
            i <= args@.len(),
            args@ == old(args)@,
            flag_index(text::texts(args@), name@, 0) == flag_index(
                text::texts(args@),
                name@,
                i as nat,
            ),
        decreases args@.len() - i,
    {
        if same(args[i].as_str(), name) {
            args.remove(i);
            assert(text::texts(args@) =~= text::texts(old(args)@).remove(i as int));
            return true;
        }
        i = i + 1;
    }
    false
}

/// The value of an argument of the form `name=value`.
pub open spec fn attached(arg: Seq<char>, name: Seq<char>) -> Option<Seq<char>> {
    let n = name.len();
    if arg.len() > n && arg.take(n as int) == name && arg[n as int] == '=' {
        Some(arg.skip(n as int + 1))
    } else {
        None
    }
}

/// The first argument, from the `from`-th on, that is the option `name`, alone
/// or with its value.
pub open spec fn option_index(args: Seq<Seq<char>>, name: Seq<char>, from: nat) -> Option<nat>
    decreases args.len() - from,
{
    if from >= args.len() {
        None
    } else if args[from as int] == name || attached(args[from as int], name) is Some {
        Some(from)
    } else {
        option_index(args, name, from + 1)
    }
}

/// The value of an option, if it is there, and the arguments without the two;
/// or what is wrong with it.
pub open spec fn option_taken(args: Seq<Seq<char>>, name: Seq<char>) -> core::result::Result<
    (Option<Seq<char>>, Seq<Seq<char>>),
    Seq<char>,
> {
    match option_index(args, name, 0) {
        None => Ok((None, args)),
        Some(i) => match attached(args[i as int], name) {
            Some(value) => Ok((Some(value), args.remove(i as int))),
            None => if i + 1 >= args.len() {
                Err(name + " needs a value"@)
            } else {
                Ok((Some(args[i as int + 1]), args.remove(i as int).remove(i as int)))
            },
        },
    }
}

/// The value of an argument of the form `name=value`.
fn value_of(arg: &str, name: &str) -> (r: Option<String>)
    ensures
        maybe(r) == attached(arg@, name@),
{
    let a = chars(arg);
    let n = chars(name);
    if a.len() <= n.len() || a[n.len()] != '=' {
        return None;
    }
    let mut i: usize = 0;
    while i < n.len()
        invariant
            a@ == arg@,
            n@ == name@,
            i <= n@.len() < a@.len(),
            forall|k: int| 0 <= k < i ==> a@[k] == n@[k],
        decreases n@.len() - i,
    {
        if a[i] != n[i] {
            assert(a@.take(n@.len() as int)[i as int] != n@[i as int]);
            return None;
        }
        i = i + 1;
    }
    assert(a@.take(n@.len() as int) =~= n@);
    let value = from_chars(&a.as_slice()[n.len() + 1..a.len()]);
    assert(value@ =~= a@.skip(n@.len() as int + 1));
    Some(value)
}

/// Remove `name` and its value from `args`. Both `--flag value` and
/// `--flag=value` are accepted; a trailing `--flag` with nothing after it is an
/// error.
pub fn take_opt(args: &mut Vec<String>, name: &str) -> (r: core::result::Result<
    Option<String>,
    String,
>)
    ensures
        match r {
            Ok(value) => option_taken(text::texts(old(args)@), name@) == Ok::<
                (Option<Seq<char>>, Seq<Seq<char>>),
                Seq<char>,
            >((maybe(value), text::texts(final(args)@))),
            Err(m) => {
                &&& option_taken(text::texts(old(args)@), name@) == Err::<
                    (Option<Seq<char>>, Seq<Seq<char>>),
                    Seq<char>,
                >(m@)
                &&& final(args)@ == old(args)@
            },
        },
{
    let mut i: usize = 0;
    while i < args.len()
        invariant
            i <= args@.len(),
            args@ == old(args)@,
            option_index(text::texts(args@), name@, 0) == option_index(
                text::texts(args@),
                name@,
                i as nat,
            ),
        decreases args@.len() - i,
    {
        let ghost before = text::texts(args@);
        match value_of(args[i].as_str(), name) {
            Some(value) => {
                args.remove(i);
                assert(text::texts(args@) =~= before.remove(i as int));
                return Ok(Some(value));
            },
            None => {},
        }
        if same(args[i].as_str(), name) {
            if i + 1 >= args.len() {
                let mut m = String::from_str(name);
                m.append(" needs a value");
                return Err(m);
            }
            args.remove(i);
            assert(text::texts(args@) =~= before.remove(i as int));
            let value = args.remove(i);
            assert(text::texts(args@) =~= before.remove(i as int).remove(i as int));
            return Ok(Some(value));
        }
        i = i + 1;
    }
    Ok(None)
}

/// `--rsrc` used as a bare flag, selecting which fork to operate on.
pub open spec fn fork_taken(args: Seq<Seq<char>>) -> (Fork, Seq<Seq<char>>) {
    let (found, rest) = flag_taken(args, "--rsrc"@);
    (
        if found {
            Fork::Resource
        } else {
            Fork::Data
        },
        rest,
    )
}

/// `--rsrc` used as a bare flag, selecting which fork to operate on.
pub fn fork_flag(args: &mut Vec<String>) -> (fork: Fork)
    ensures
        (fork, text::texts(final(args)@)) == fork_taken(text::texts(old(args)@)),
{
    if take_flag(args, "--rsrc") {
        Fork::Resource
    } else {
        Fork::Data
    }
}

// ------------------------------------------------------------------- positionals

/// Whether an argument is an option: a dash and more.
pub open spec fn is_option(arg: Seq<char>) -> bool {
    arg.len() > 1 && arg[0] == '-'
}

/// The first argument, from the `from`-th on, that is an option.
pub open spec fn stray_option(args: Seq<Seq<char>>, from: nat) -> Option<Seq<char>>
    decreases args.len() - from,
{
    if from >= args.len() {
        None
    } else if is_option(args[from as int]) {
        Some(args[from as int])
    } else {
        stray_option(args, from + 1)
    }
}

/// The `n` positional arguments of a command, or what is wrong with them.
pub open spec fn positionals_outcome(
    args: Seq<Seq<char>>,
    cmd: Seq<char>,
    n: nat,
) -> core::result::Result<Seq<Seq<char>>, FailureView> {
    match stray_option(args, 0) {
        Some(flag) => Err(complaint(cmd, "unknown option "@ + flag)),
        None => if args.len() != n {
            Err(FailureView::Usage(line_for(cmd)))
        } else {
            Ok(args)
        },
    }
}

/// Check that what is left of the command line is exactly `n` positional
/// arguments, with no unconsumed flags among them.
pub fn positionals(args: Vec<String>, cmd: &str, n: usize) -> (r: core::result::Result<
    Vec<String>,
    Failure,
>)
    ensures
        match r {
            Ok(rest) => {
                &&& positionals_outcome(text::texts(args@), cmd@, n as nat) == Ok::<
                    Seq<Seq<char>>,
                    FailureView,
                >(text::texts(rest@))
                &&& rest@ == args@
                &&& rest@.len() == n
            },
            Err(f) => positionals_outcome(text::texts(args@), cmd@, n as nat) == Err::<
                Seq<Seq<char>>,
                FailureView,
            >(f@),
        },
{
    let mut i: usize = 0;
    while i < args.len()
        invariant
            i <= args@.len(),
            stray_option(text::texts(args@), 0) == stray_option(text::texts(args@), i as nat),
        decreases args@.len() - i,
    {
        let a = chars(args[i].as_str());
        if a.len() > 1 && a[0] == '-' {
            let mut m = String::from_str("unknown option ");
            m.append(args[i].as_str());
            return Err(usage_err(cmd, m.as_str()));
        }
        i = i + 1;
    }
    if args.len() != n {
        return Err(Failure::Usage(usage_line(cmd)));
    }
    Ok(args)
}

// ------------------------------------------------------------------------ values

/// Four ASCII characters as bytes.
pub open spec fn code_bytes(s: Seq<char>) -> Seq<u8> {
    Seq::new(4, |i: int| s[i] as u8)
}

/// The Finder code that an option gives, or what is wrong with it.
pub open spec fn code_outcome(value: Option<Seq<char>>, flag: Seq<char>) -> core::result::Result<
    Seq<u8>,
    FailureView,
> {
    match value {
        None => Ok(seq![0x3Fu8, 0x3F, 0x3F, 0x3F]),
        Some(s) => if s.len() != 4 || !macroman::all_ascii(s) {
            Err(
                FailureView::Error(
                    flag + " must be exactly four ASCII characters, got "@ + text::quoted(s),
                ),
            )
        } else {
            Ok(code_bytes(s))
        },
    }
}

/// The Finder code that an option gives.
///
/// Real type and creator codes are four MacRoman bytes; this accepts the ASCII
/// subset, which covers every code anyone types on a modern keyboard.
pub fn parse_code(value: Option<&str>, flag: &str) -> (r: core::result::Result<[u8; 4], Failure>)
    ensures
        match r {
            Ok(code) => code_outcome(
                match value {
                    Some(s) => Some(s@),
                    None => None,
                },
                flag@,
            ) == Ok::<Seq<u8>, FailureView>(code@),
            Err(f) => code_outcome(
                match value {
                    Some(s) => Some(s@),
                    None => None,
                },
                flag@,
            ) == Err::<Seq<u8>, FailureView>(f@),
        },
{
    let value = match value {
        Some(value) => value,
        None => {
            let code: [u8; 4] = [0x3F, 0x3F, 0x3F, 0x3F];
            assert(code@ =~= seq![0x3Fu8, 0x3F, 0x3F, 0x3F]);
            return Ok(code);
        },
    };
    let c = chars(value);
    let mut ascii: bool = true;
    let mut i: usize = 0;
    while i < c.len()
        invariant
            i <= c@.len(),
            ascii == forall|k: int| 0 <= k < i ==> (#[trigger] c@[k] as int) < 0x80,
        decreases c@.len() - i,
    {
        if c[i] > '\u{7f}' {
            assert((c@[i as int] as int) >= 0x80);
            ascii = false;
        }
        i = i + 1;
    }
    if c.len() != 4 || !ascii {
        let mut m = String::from_str(flag);
        m.append(" must be exactly four ASCII characters, got ");
        m.append(quote(value).as_str());
        return Err(Failure::Error(m));
    }
    assert((c@[0] as int) < 0x80 && (c@[1] as int) < 0x80 && (c@[2] as int) < 0x80 && (c@[3] as int)
        < 0x80);
    let code: [u8; 4] = [
        c[0] as u8,
        c[1] as u8,
        c[2] as u8,
        c[3] as u8,
    ];
    assert(code@ =~= code_bytes(value@));
    Ok(code)
}

/// Whether a character is a decimal digit.
pub open spec fn is_digit(c: char) -> bool {
    '0' <= c <= '9'
}

/// Whether all characters are decimal digits.
pub open spec fn all_digits(s: Seq<char>) -> bool {
    forall|i: int| 0 <= i < s.len() ==> is_digit(#[trigger] s[i])
}

/// The number that some decimal digits stand for.
pub open spec fn value_of_digits(s: Seq<char>) -> nat
    decreases s.len(),
{
    if s.len() == 0 {
        0
    } else {
        value_of_digits(s.drop_last()) * 10 + (s.last() as int - '0' as int) as nat
    }
}

/// The 32-bit number that a string stands for: digits, with a plus sign before
/// them or not.
pub open spec fn number(s: Seq<char>) -> Option<u32> {
    let digits = if s.len() > 0 && s[0] == '+' {
        s.skip(1)
    } else {
        s
    };
    if digits.len() > 0 && all_digits(digits) && value_of_digits(digits) <= u32::MAX {
        Some(value_of_digits(digits) as u32)
    } else {
        None
    }
}

/// Whether a size is given in kilobytes.
pub open spec fn in_kilobytes(s: Seq<char>) -> bool {
    s.len() > 0 && (s.last() == 'k' || s.last() == 'K')
}

/// The number of bytes that a size stands for.
pub open spec fn size_of_text(s: Seq<char>) -> Option<nat> {
    if in_kilobytes(s) {
        match number(s.drop_last()) {
            Some(n) => Some(n as nat * 1024),
            None => None,
        }
    } else {
        match number(s) {
            Some(n) => Some(n as nat),
            None => None,
        }
    }
}

/// The size that an option gives, or what is wrong with it.
pub open spec fn size_outcome(s: Seq<char>) -> core::result::Result<u32, FailureView> {
    match size_of_text(s) {
        Some(n) => if n <= u32::MAX {
            Ok(n as u32)
        } else {
            Err(bad_size(s))
        },
        None => Err(bad_size(s)),
    }
}

/// The complaint about a size.
pub open spec fn bad_size(s: Seq<char>) -> FailureView {
    FailureView::Error(
        "--size "@ + text::quoted(s) + " is not 400k, 800k or a byte count"@,
    )
}

/// More digits make no smaller number.
proof fn lemma_value_grows(s: Seq<char>, n: int)
    requires
        0 <= n <= s.len(),
        all_digits(s),
    ensures
        value_of_digits(s.take(n)) <= value_of_digits(s),
    decreases s.len(),
{
    if n == s.len() {
        assert(s.take(n) =~= s);
    } else {
        lemma_value_grows(s.drop_last(), n);
        assert(s.drop_last().take(n) =~= s.take(n));
    }
}

/// The 32-bit number that the first `end` characters stand for.
fn parse_number(c: &[char], end: usize) -> (r: Option<u32>)
    requires
        end <= c@.len(),
    ensures
        r == number(c@.take(end as int)),
{
    let ghost s = c@.take(end as int);
    let from: usize = if end > 0 && c[0] == '+' {
        1
    } else {
        0
    };
    let ghost digits = s.skip(from as int);
    assert(from == 0 ==> digits =~= s);
    if from == end {
        return None;
    }
    let mut acc: u64 = 0;
    let mut i: usize = from;
    assert(digits.take(0) =~= Seq::empty());
    while i < end
        invariant
            from <= i <= end <= c@.len(),
            digits == c@.take(end as int).skip(from as int),
            acc <= u32::MAX,
            acc == value_of_digits(digits.take(i - from)),
            forall|k: int| 0 <= k < i - from ==> is_digit(#[trigger] digits[k]),
            number(c@.take(end as int)) == (if digits.len() > 0 && all_digits(digits)
                && value_of_digits(digits) <= u32::MAX {
                Some(value_of_digits(digits) as u32)
            } else {
                None
            }),
        decreases end - i,
    {
        let d: char = c[i];
        assert(d == digits[i - from]);
        if !('0' <= d && d <= '9') {
            assert(!is_digit(digits[i - from]));
            return None;
        }
        acc = acc * 10 + (d as u32 - 48) as u64;
        i = i + 1;
        proof {
            let t = digits.take(i - from);
            assert(t.drop_last() =~= digits.take(i - 1 - from));
            assert(t.last() == d);
        }
        if acc > 0xFFFF_FFFF {
            proof {
                if all_digits(digits) {
                    lemma_value_grows(digits, i - from);
                }
            }
            return None;
        }
    }
    assert(digits.take(i - from) =~= digits);
    Some(acc as u32)
}

/// `400k`, `800K` or a plain byte count.
pub fn parse_size(size: &str) -> (r: core::result::Result<u32, Failure>)
    ensures
        match r {
            Ok(n) => size_outcome(size@) == Ok::<u32, FailureView>(n),
            Err(f) => size_outcome(size@) == Err::<u32, FailureView>(f@),
        },
{
    let c = chars(size);
    let n: usize = c.len();
    let kilo: bool = n > 0 && (c[n - 1] == 'k' || c[n - 1] == 'K');
    let end: usize = if kilo {
        n - 1
    } else {
        n
    };
    let parsed = parse_number(c.as_slice(), end);
    proof {
        if kilo {
            assert(size@.take(end as int) =~= size@.drop_last());
        } else {
            assert(size@.take(end as int) =~= size@);
        }
    }
    match parsed {
        Some(v) => {
            let bytes: u64 = if kilo {
                v as u64 * 1024
            } else {
                v as u64
            };
            if bytes <= 0xFFFF_FFFF {
                return Ok(bytes as u32);
            }
        },
        None => {},
    }
    let mut m = String::from_str("--size ");
    m.append(quote(size).as_str());
    m.append(" is not 400k, 800k or a byte count");
    Err(Failure::Error(m))
}

// ---------------------------------------------------------------------- commands

/// The command `info`.
pub open spec fn info_outcome(args: Seq<Seq<char>>) -> core::result::Result<
    CommandView,
    FailureView,
> {
    match positionals_outcome(args, "info"@, 1) {
        Err(f) => Err(f),
        Ok(p) => Ok(CommandView::Info { image: p[0] }),
    }
}

/// The command `ls`.
pub open spec fn ls_outcome(args: Seq<Seq<char>>) -> core::result::Result<
    CommandView,
    FailureView,
> {
    let (long, args) = flag_taken(args, "-l"@);
    match positionals_outcome(args, "ls"@, 1) {
        Err(f) => Err(f),
        Ok(p) => Ok(CommandView::Ls { image: p[0], long }),
    }
}

/// The command `cat`.
pub open spec fn cat_outcome(args: Seq<Seq<char>>) -> core::result::Result<
    CommandView,
    FailureView,
> {
    let (fork, args) = fork_taken(args);
    match positionals_outcome(args, "cat"@, 2) {
        Err(f) => Err(f),
        Ok(p) => Ok(CommandView::Cat { image: p[0], name: p[1], fork }),
    }
}

/// The value of an option of command `cmd`, if it is there, and the arguments
/// without the two; or the complaint about it.
pub open spec fn option_outcome(
    args: Seq<Seq<char>>,
    cmd: Seq<char>,
    name: Seq<char>,
) -> core::result::Result<(Option<Seq<char>>, Seq<Seq<char>>), FailureView> {
    match option_taken(args, name) {
        Err(m) => Err(complaint(cmd, m)),
        Ok(t) => Ok(t),
    }
}

/// The command `extract`.
pub open spec fn extract_outcome(args: Seq<Seq<char>>) -> core::result::Result<
    CommandView,
    FailureView,
> {
    let (fork, args) = fork_taken(args);
    match option_outcome(args, "extract"@, "-o"@) {
        Err(f) => Err(f),
        Ok((out, args)) => match positionals_outcome(args, "extract"@, 2) {
            Err(f) => Err(f),
            Ok(p) => Ok(CommandView::Extract { image: p[0], name: p[1], fork, out }),
        },
    }
}

/// The command `add`, its options having been taken out.
pub open spec fn add_rest_outcome(
    args: Seq<Seq<char>>,
    name: Option<Seq<char>>,
    type_code: Option<Seq<char>>,
    creator: Option<Seq<char>>,
    rsrc: Option<Seq<char>>,
) -> core::result::Result<CommandView, FailureView> {
    match positionals_outcome(args, "add"@, 2) {
        Err(f) => Err(f),
        Ok(p) => match code_outcome(type_code, "--type"@) {
            Err(f) => Err(f),
            Ok(type_code) => match code_outcome(creator, "--creator"@) {
                Err(f) => Err(f),
                Ok(creator) => Ok(
                    CommandView::Add {
                        image: p[0],
                        hostfile: p[1],
                        name,
                        type_code,
                        creator,
                        rsrc,
                    },
                ),
            },
        },
    }
}

/// The command `add`.
pub open spec fn add_outcome(args: Seq<Seq<char>>) -> core::result::Result<
    CommandView,
    FailureView,
> {
    match option_outcome(args, "add"@, "--name"@) {
        Err(f) => Err(f),
        Ok((name, args)) => match option_outcome(args, "add"@, "--type"@) {
            Err(f) => Err(f),
            Ok((type_code, args)) => match option_outcome(args, "add"@, "--creator"@) {
                Err(f) => Err(f),
                Ok((creator, args)) => match option_outcome(args, "add"@, "--rsrc"@) {
                    Err(f) => Err(f),
                    Ok((rsrc, args)) => add_rest_outcome(args, name, type_code, creator, rsrc),
                },
            },
        },
    }
}

/// The command `rm`.
pub open spec fn rm_outcome(args: Seq<Seq<char>>) -> core::result::Result<
    CommandView,
    FailureView,
> {
    let (force, args) = flag_taken(args, "--force"@);
    match positionals_outcome(args, "rm"@, 2) {
        Err(f) => Err(f),
        Ok(p) => Ok(CommandView::Rm { image: p[0], name: p[1], force }),
    }
}

/// The command `mv`.
pub open spec fn mv_outcome(args: Seq<Seq<char>>) -> core::result::Result<
    CommandView,
    FailureView,
> {
    match positionals_outcome(args, "mv"@, 3) {
        Err(f) => Err(f),
        Ok(p) => Ok(CommandView::Mv { image: p[0], from: p[1], to: p[2] }),
    }
}

/// The command `mkfs`, its options having been taken out.
pub open spec fn mkfs_rest_outcome(
    args: Seq<Seq<char>>,
    size: Option<Seq<char>>,
    name: Option<Seq<char>>,
    dc42: bool,
    force: bool,
) -> core::result::Result<CommandView, FailureView> {
    match positionals_outcome(args, "mkfs"@, 1) {
        Err(f) => Err(f),
        Ok(p) => match (match size {
            None => Ok(409_600u32),
            Some(s) => size_outcome(s),
        }) {
            Err(f) => Err(f),
            Ok(size) => Ok(
                CommandView::Mkfs {
                    image: p[0],
                    size,
                    name: match name {
                        Some(n) => n,
                        None => "Untitled"@,
                    },
                    format: if dc42 {
                        ImageFormat::DiskCopy42
                    } else {
                        ImageFormat::Raw
                    },
                    force,
                },
            ),
        },
    }
}

/// The command `mkfs`.
pub open spec fn mkfs_outcome(args: Seq<Seq<char>>) -> core::result::Result<
    CommandView,
    FailureView,
> {
    match option_outcome(args, "mkfs"@, "--size"@) {
        Err(f) => Err(f),
        Ok((size, args)) => match option_outcome(args, "mkfs"@, "--name"@) {
            Err(f) => Err(f),
            Ok((name, args)) => {
                let (dc42, args) = flag_taken(args, "--dc42"@);
                let (force, args) = flag_taken(args, "--force"@);
                mkfs_rest_outcome(args, size, name, dc42, force)
            },
        },
    }
}

/// The command `check`.
pub open spec fn check_outcome(args: Seq<Seq<char>>) -> core::result::Result<
    CommandView,
    FailureView,
> {
    match positionals_outcome(args, "check"@, 1) {
        Err(f) => Err(f),
        Ok(p) => Ok(CommandView::Check { image: p[0] }),
    }
}

/// The command `bootblocks`.
pub open spec fn bootblocks_outcome(args: Seq<Seq<char>>) -> core::result::Result<
    CommandView,
    FailureView,
> {
    match option_outcome(args, "bootblocks"@, "--export"@) {
        Err(f) => Err(f),
        Ok((export, args)) => match option_outcome(args, "bootblocks"@, "--import"@) {
            Err(f) => Err(f),
            Ok((import, args)) => match positionals_outcome(args, "bootblocks"@, 1) {
                Err(f) => Err(f),
                Ok(p) => match (export, import) {
                    (Some(_), Some(_)) => Err(
                        complaint(
                            "bootblocks"@,
                            "--export and --import are mutually exclusive"@,
                        ),
                    ),
                    (Some(path), None) => Ok(
                        CommandView::BootBlocks {
                            image: p[0],
                            action: BootActionView::Export(path),
                        },
                    ),
                    (None, Some(path)) => Ok(
                        CommandView::BootBlocks {
                            image: p[0],
                            action: BootActionView::Import(path),
                        },
                    ),
                    (None, None) => Ok(
                        CommandView::BootBlocks { image: p[0], action: BootActionView::Show },
                    ),
                },
            },
        },
    }
}

/// The command that a command line asks for, or what is wrong with it.
pub open spec fn command_outcome(line: Seq<Seq<char>>) -> core::result::Result<
    CommandView,
    FailureView,
> {
    if line.len() == 0 {
        Err(FailureView::Usage(overview()))
    } else {
        let cmd = line[0];
        let args = line.remove(0);
        if cmd == "help"@ || cmd == "-h"@ || cmd == "--help"@ {
            Ok(CommandView::Help)
        } else if cmd == "info"@ {
            info_outcome(args)
        } else if cmd == "ls"@ {
            ls_outcome(args)
        } else if cmd == "cat"@ {
            cat_outcome(args)
        } else if cmd == "extract"@ {
            extract_outcome(args)
        } else if cmd == "add"@ {
            add_outcome(args)
        } else if cmd == "rm"@ {
            rm_outcome(args)
        } else if cmd == "mv"@ {
            mv_outcome(args)
        } else if cmd == "mkfs"@ {
            mkfs_outcome(args)
        } else if cmd == "check"@ {
            check_outcome(args)
        } else if cmd == "bootblocks"@ {
            bootblocks_outcome(args)
        } else {
            Err(
                FailureView::Usage(
                    "mfs: unknown command "@ + text::quoted(cmd) + "\n"@ + overview(),
                ),
            )
        }
    }
}

/// The command `info`.
fn parse_info(args: Vec<String>) -> (r: core::result::Result<Command, Failure>)
    ensures
        outcome(r) == info_outcome(text::texts(args@)),
{
    let p = match positionals(args, "info", 1) {
        Ok(p) => p,
        Err(f) => return Err(f),
    };
    Ok(Command::Info { image: p[0].clone() })
}

/// The command `ls`.
fn parse_ls(args: Vec<String>) -> (r: core::result::Result<Command, Failure>)
    ensures
        outcome(r) == ls_outcome(text::texts(args@)),
{
    let mut args = args;
    let long = take_flag(&mut args, "-l");
    let p = match positionals(args, "ls", 1) {
        Ok(p) => p,
        Err(f) => return Err(f),
    };
    Ok(Command::Ls { image: p[0].clone(), long })
}

/// The command `cat`.
fn parse_cat(args: Vec<String>) -> (r: core::result::Result<Command, Failure>)
    ensures
        outcome(r) == cat_outcome(text::texts(args@)),
{
    let mut args = args;
    let fork = fork_flag(&mut args);
    let p = match positionals(args, "cat", 2) {
        Ok(p) => p,
        Err(f) => return Err(f),
    };
    Ok(Command::Cat { image: p[0].clone(), name: p[1].clone(), fork })
}

/// The value of an option of command `cmd`, removed from `args`.
fn command_opt(args: &mut Vec<String>, cmd: &str, name: &str) -> (r: core::result::Result<
    Option<String>,
    Failure,
>)
    ensures
        match r {
            Ok(value) => option_outcome(text::texts(old(args)@), cmd@, name@) == Ok::<
                (Option<Seq<char>>, Seq<Seq<char>>),
                FailureView,
            >((maybe(value), text::texts(final(args)@))),
            Err(f) => option_outcome(text::texts(old(args)@), cmd@, name@) == Err::<
                (Option<Seq<char>>, Seq<Seq<char>>),
                FailureView,
            >(f@),
        },
{
    match take_opt(args, name) {
        Ok(value) => Ok(value),
        Err(m) => Err(usage_err(cmd, m.as_str())),
    }
}

/// The command `extract`.
fn parse_extract(args: Vec<String>) -> (r: core::result::Result<Command, Failure>)
    ensures
        outcome(r) == extract_outcome(text::texts(args@)),
{
    let mut args = args;
    let fork = fork_flag(&mut args);
    let out = match command_opt(&mut args, "extract", "-o") {
        Ok(out) => out,
        Err(f) => return Err(f),
    };
    let p = match positionals(args, "extract", 2) {
        Ok(p) => p,
        Err(f) => return Err(f),
    };
    Ok(Command::Extract { image: p[0].clone(), name: p[1].clone(), fork, out })
}

/// The Finder code that an option gives.
fn code_opt(value: &Option<String>, flag: &str) -> (r: core::result::Result<[u8; 4], Failure>)
    ensures
        match r {
            Ok(code) => code_outcome(maybe(*value), flag@) == Ok::<Seq<u8>, FailureView>(code@),
            Err(f) => code_outcome(maybe(*value), flag@) == Err::<Seq<u8>, FailureView>(f@),
        },
{
    match value {
        Some(s) => parse_code(Some(s.as_str()), flag),
        None => parse_code(None, flag),
    }
}

/// The command `add`.
fn parse_add(args: Vec<String>) -> (r: core::result::Result<Command, Failure>)
    ensures
        outcome(r) == add_outcome(text::texts(args@)),
{
    let mut args = args;
    let name = match command_opt(&mut args, "add", "--name") {
        Ok(name) => name,
        Err(f) => return Err(f),
    };
    let type_code = match command_opt(&mut args, "add", "--type") {
        Ok(code) => code,
        Err(f) => return Err(f),
    };
    let creator = match command_opt(&mut args, "add", "--creator") {
        Ok(code) => code,
        Err(f) => return Err(f),
    };
    let rsrc = match command_opt(&mut args, "add", "--rsrc") {
        Ok(rsrc) => rsrc,
        Err(f) => return Err(f),
    };
    let p = match positionals(args, "add", 2) {
        Ok(p) => p,
        Err(f) => return Err(f),
    };
    let type_code = match code_opt(&type_code, "--type") {
        Ok(code) => code,
        Err(f) => return Err(f),
    };
    let creator = match code_opt(&creator, "--creator") {
        Ok(code) => code,
        Err(f) => return Err(f),
    };
    Ok(
        Command::Add {
            image: p[0].clone(),
            hostfile: p[1].clone(),
            name,
            type_code,
            creator,
            rsrc,
        },
    )
}

/// The command `rm`.
fn parse_rm(args: Vec<String>) -> (r: core::result::Result<Command, Failure>)
    ensures
        outcome(r) == rm_outcome(text::texts(args@)),
{
    let mut args = args;
    let force = take_flag(&mut args, "--force");
    let p = match positionals(args, "rm", 2) {
        Ok(p) => p,
        Err(f) => return Err(f),
    };
    Ok(Command::Rm { image: p[0].clone(), name: p[1].clone(), force })
}

/// The command `mv`.
fn parse_mv(args: Vec<String>) -> (r: core::result::Result<Command, Failure>)
    ensures
        outcome(r) == mv_outcome(text::texts(args@)),
{
    let p = match positionals(args, "mv", 3) {
        Ok(p) => p,
        Err(f) => return Err(f),
    };
    Ok(Command::Mv { image: p[0].clone(), from: p[1].clone(), to: p[2].clone() })
}

/// The command `mkfs`.
fn parse_mkfs(args: Vec<String>) -> (r: core::result::Result<Command, Failure>)
    ensures
        outcome(r) == mkfs_outcome(text::texts(args@)),
{
    let mut args = args;
    let size = match command_opt(&mut args, "mkfs", "--size") {
        Ok(size) => size,
        Err(f) => return Err(f),
    };
    let name = match command_opt(&mut args, "mkfs", "--name") {
        Ok(name) => name,
        Err(f) => return Err(f),
    };
    let dc42 = take_flag(&mut args, "--dc42");
    let force = take_flag(&mut args, "--force");
    let p = match positionals(args, "mkfs", 1) {
        Ok(p) => p,
        Err(f) => return Err(f),
    };
    let size: u32 = match size {
        None => MfsVolume::FLOPPY_400K,
        Some(s) => match parse_size(s.as_str()) {
            Ok(n) => n,
            Err(f) => return Err(f),
        },
    };
    let name = match name {
        Some(n) => n,
        None => String::from_str("Untitled"),
    };
    let format = if dc42 {
        ImageFormat::DiskCopy42
    } else {
        ImageFormat::Raw
    };
    Ok(Command::Mkfs { image: p[0].clone(), size, name, format, force })
}

/// The command `check`.
fn parse_check(args: Vec<String>) -> (r: core::result::Result<Command, Failure>)
    ensures
        outcome(r) == check_outcome(text::texts(args@)),
{
    let p = match positionals(args, "check", 1) {
        Ok(p) => p,
        Err(f) => return Err(f),
    };
    Ok(Command::Check { image: p[0].clone() })
}

/// The command `bootblocks`.
fn parse_bootblocks(args: Vec<String>) -> (r: core::result::Result<Command, Failure>)
    ensures
        outcome(r) == bootblocks_outcome(text::texts(args@)),
{
    let mut args = args;
    let export = match command_opt(&mut args, "bootblocks", "--export") {
        Ok(path) => path,
        Err(f) => return Err(f),
    };
    let import = match command_opt(&mut args, "bootblocks", "--import") {
        Ok(path) => path,
        Err(f) => return Err(f),
    };
    let p = match positionals(args, "bootblocks", 1) {
        Ok(p) => p,
        Err(f) => return Err(f),
    };
    let action = match export {
        Some(path) => {
            if import.is_some() {
                return Err(
                    usage_err("bootblocks", "--export and --import are mutually exclusive"),
                );
            }
            BootAction::Export(path)
        },
        None => match import {
            Some(path) => BootAction::Import(path),
            None => BootAction::Show,
        },
    };
    Ok(Command::BootBlocks { image: p[0].clone(), action })
}

/// The command that a command line asks for, the name of the program left out.
pub fn parse(line: Vec<String>) -> (r: core::result::Result<Command, Failure>)
    ensures
        outcome(r) == command_outcome(text::texts(line@)),
{
    if line.len() == 0 {
        return Err(Failure::Usage(usage()));
    }
    let mut args = line;
    let first = args.remove(0);
    let cmd = first.as_str();
    assert(text::texts(args@) =~= text::texts(line@).remove(0));
    if same(cmd, "help") || same(cmd, "-h") || same(cmd, "--help") {
        Ok(Command::Help)
    } else if same(cmd, "info") {
        parse_info(args)
    } else if same(cmd, "ls") {
        parse_ls(args)
    } else if same(cmd, "cat") {
        parse_cat(args)
    } else if same(cmd, "extract") {
        parse_extract(args)
    } else if same(cmd, "add") {
        parse_add(args)
    } else if same(cmd, "rm") {
        parse_rm(args)
    } else if same(cmd, "mv") {
        parse_mv(args)
    } else if same(cmd, "mkfs") {
        parse_mkfs(args)
    } else if same(cmd, "check") {
        parse_check(args)
    } else if same(cmd, "bootblocks") {
        parse_bootblocks(args)
    } else {
        let mut m = String::from_str("mfs: unknown command ");
        m.append(quote(cmd).as_str());
        m.append("\n");
        m.append(usage().as_str());
        Err(Failure::Usage(m))
    }
}

} // verus!
