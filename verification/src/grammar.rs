//! What a command line of `mfs` means: which lines ask for which command, and
//! which are refused.

use vstd::prelude::*;

use crate::args;
use crate::args::{BootActionView, CommandView, FailureView};
use crate::text;
use crate::volume::{Fork, ImageFormat};

verus! {

// ------------------------------------------------------------------------- flags

/// Whether `rest` is what is left of `args` once the first `flag` among them is
/// taken out, if there is one.
#[verifier::opaque]
pub open spec fn without_flag(
    args: Seq<Seq<char>>,
    flag: Seq<char>,
    found: bool,
    rest: Seq<Seq<char>>,
) -> bool {
    if found {
        exists|i: int|
            {
                &&& 0 <= i <= rest.len()
                &&& args == #[trigger] rest.insert(i, flag)
                &&& forall|k: int| 0 <= k < i ==> rest[k] != flag
            }
    } else {
        rest == args && !args.contains(flag)
    }
}

/// The place of a flag.
proof fn lemma_flag_index(args: Seq<Seq<char>>, name: Seq<char>, from: nat)
    ensures
        match args::flag_index(args, name, from) {
            Some(i) => {
                &&& from <= i < args.len()
                &&& args[i as int] == name
                &&& forall|k: int| from <= k < i ==> #[trigger] args[k] != name
            },
            None => forall|k: int| from <= k < args.len() ==> #[trigger] args[k] != name,
        },
    decreases args.len() - from,
{
    if from < args.len() && args[from as int] != name {
        lemma_flag_index(args, name, from + 1);
    }
}

/// A flag is found if and only if it is among the arguments. The first one is
/// taken out, and all other arguments stay, in order.
pub proof fn lemma_flag_taken(
    args: Seq<Seq<char>>,
    flag: Seq<char>,
    found: bool,
    rest: Seq<Seq<char>>,
)
    ensures
        args::flag_taken(args, flag) == (found, rest) <==> without_flag(args, flag, found, rest),
        args::flag_taken(args, flag).0 <==> args.contains(flag),
{
    reveal(without_flag);
    lemma_flag_index(args, flag, 0);
    match args::flag_index(args, flag, 0) {
        Some(j) => {
            let r = args.remove(j as int);
            assert(args =~= r.insert(j as int, flag));
            assert forall|k: int| 0 <= k < j implies r[k] != flag by {
                assert(args[k] != flag);
            }
            assert(args.contains(flag));
            if without_flag(args, flag, found, rest) {
                let i = choose|i: int|
                    {
                        &&& 0 <= i <= rest.len()
                        &&& args == #[trigger] rest.insert(i, flag)
                        &&& forall|k: int| 0 <= k < i ==> rest[k] != flag
                    };
                assert(args[i] == flag);
                if j < i {
                    assert(rest[j as int] == args[j as int]);
                }
                assert(i == j);
                assert(r =~= rest);
            }
        },
        None => {
            if found && without_flag(args, flag, found, rest) {
                let i = choose|i: int|
                    {
                        &&& 0 <= i <= rest.len()
                        &&& args == #[trigger] rest.insert(i, flag)
                        &&& forall|k: int| 0 <= k < i ==> rest[k] != flag
                    };
                assert(args[i] == flag);
            }
        },
    }
}

// ----------------------------------------------------------------------- options

/// Whether an argument is the option `name`, alone or with a value behind an
/// equals sign.
pub open spec fn mentions(arg: Seq<char>, name: Seq<char>) -> bool {
    arg == name || name.push('=').is_prefix_of(arg)
}

/// Whether `rest` is what is left of `args` once the option `name` was taken out
/// of place `i` with the value `s`, and is not mentioned before.
pub open spec fn option_at(
    args: Seq<Seq<char>>,
    name: Seq<char>,
    s: Seq<char>,
    rest: Seq<Seq<char>>,
    i: int,
) -> bool {
    &&& 0 <= i <= rest.len()
    &&& args == rest.insert(i, name.push('=') + s) || args == rest.insert(i, s).insert(i, name)
    &&& forall|k: int| 0 <= k < i ==> !mentions(#[trigger] rest[k], name)
}

/// Whether `rest` is what is left of `args` once the first mention of the option
/// `name`, and its value, are taken out, if there is one.
#[verifier::opaque]
pub open spec fn without_option(
    args: Seq<Seq<char>>,
    name: Seq<char>,
    value: Option<Seq<char>>,
    rest: Seq<Seq<char>>,
) -> bool {
    match value {
        None => rest == args && forall|k: int|
            0 <= k < args.len() ==> !mentions(#[trigger] args[k], name),
        Some(s) => exists|i: int| #[trigger] option_at(args, name, s, rest, i),
    }
}

/// A value is attached to an option behind an equals sign.
proof fn lemma_attached(arg: Seq<char>, name: Seq<char>)
    ensures
        args::attached(arg, name) is Some <==> name.push('=').is_prefix_of(arg),
        args::attached(arg, name) matches Some(s) ==> arg == name.push('=') + s,
        forall|s: Seq<char>|
            arg == #[trigger] (name.push('=') + s) ==> args::attached(arg, name) == Some(s),
        args::attached(name, name) is None,
{
    let n = name.len() as int;
    if let Some(s) = args::attached(arg, name) {
        assert(arg =~= name.push('=') + s) by {
            assert forall|i: int| 0 <= i < n implies arg[i] == name[i] by {
                assert(arg.take(n)[i] == arg[i]);
            }
        }
        assert(name.push('=').is_prefix_of(arg));
    }
    if name.push('=').is_prefix_of(arg) {
        assert(name.push('=') == arg.subrange(0, n + 1));
        assert(arg.take(n) =~= name) by {
            assert forall|i: int| 0 <= i < n implies arg.take(n)[i] == name[i] by {
                assert(arg.subrange(0, n + 1)[i] == arg[i]);
                assert(name.push('=')[i] == name[i]);
            }
        }
        assert(arg.subrange(0, n + 1)[n] == arg[n]);
    }
    assert forall|s: Seq<char>| arg == #[trigger] (name.push('=') + s) implies args::attached(
        arg,
        name,
    ) == Some(s) by {
        assert(arg.take(n) =~= name);
        assert(arg.skip(n + 1) =~= s);
    }
}

/// The place of an option.
proof fn lemma_option_index(args: Seq<Seq<char>>, name: Seq<char>, from: nat)
    ensures
        match args::option_index(args, name, from) {
            Some(i) => {
                &&& from <= i < args.len()
                &&& mentions(args[i as int], name)
                &&& forall|k: int| from <= k < i ==> !mentions(#[trigger] args[k], name)
            },
            None => forall|k: int|
                from <= k < args.len() ==> !mentions(#[trigger] args[k], name),
        },
    decreases args.len() - from,
{
    if from < args.len() {
        lemma_attached(args[from as int], name);
        lemma_option_index(args, name, from + 1);
    }
}

/// An option is taken with its value, which stands behind an equals sign or is
/// the argument behind it; all other arguments stay, in order. An option that is
/// not mentioned has no value.
#[verifier::rlimit(60)]
pub proof fn lemma_option_taken(
    args: Seq<Seq<char>>,
    name: Seq<char>,
    value: Option<Seq<char>>,
    rest: Seq<Seq<char>>,
)
    ensures
        args::option_taken(args, name) == Ok::<(Option<Seq<char>>, Seq<Seq<char>>), Seq<char>>(
            (value, rest),
        ) <==> without_option(args, name, value, rest),
{
    reveal(without_option);
    lemma_option_index(args, name, 0);
    match args::option_index(args, name, 0) {
        None => {
            if let Some(s) = value {
                if without_option(args, name, value, rest) {
                    let i = choose|i: int| #[trigger] option_at(args, name, s, rest, i);
                    lemma_option_place(args, name, s, rest, i);
                }
            }
        },
        Some(j) => {
            lemma_attached(args[j as int], name);
            let r = args.remove(j as int);
            let q = r.remove(j as int);
            if args::option_taken(args, name) == Ok::<
                (Option<Seq<char>>, Seq<Seq<char>>),
                Seq<char>,
            >((value, rest)) {
                let s = value->0;
                assert forall|k: int| 0 <= k < j implies !mentions(#[trigger] rest[k], name) by {
                    assert(rest[k] == args[k]);
                }
                if args::attached(args[j as int], name) is Some {
                    assert(args =~= rest.insert(j as int, name.push('=') + s));
                } else {
                    assert(args =~= rest.insert(j as int, s).insert(j as int, name));
                }
                assert(option_at(args, name, s, rest, j as int));
            }
            if without_option(args, name, value, rest) {
                match value {
                    None => {},
                    Some(s) => {
                        let i = choose|i: int| #[trigger] option_at(args, name, s, rest, i);
                        lemma_option_place(args, name, s, rest, i);
                        if j < i {
                            assert(!mentions(rest[j as int], name));
                        }
                        assert(i == j);
                        if args == rest.insert(i, name.push('=') + s) {
                            assert(r =~= rest);
                        } else {
                            assert(q =~= rest);
                        }
                    },
                }
            }
        },
    }
}

/// What stands where an option was taken out, and before.
proof fn lemma_option_place(
    args: Seq<Seq<char>>,
    name: Seq<char>,
    s: Seq<char>,
    rest: Seq<Seq<char>>,
    i: int,
)
    requires
        0 <= i <= rest.len(),
        args == rest.insert(i, name.push('=') + s) || args == rest.insert(i, s).insert(i, name),
    ensures
        i < args.len(),
        mentions(args[i], name),
        args == rest.insert(i, name.push('=') + s) ==> args[i] == name.push('=') + s,
        args != rest.insert(i, name.push('=') + s) ==> args[i] == name && i + 1 < args.len()
            && args[i + 1] == s,
        forall|k: int| 0 <= k < i ==> #[trigger] args[k] == rest[k],
{
    assert((name.push('=') + s).subrange(0, name.len() as int + 1) =~= name.push('='));
    lemma_attached(name.push('=') + s, name);
}

/// An option without a value is refused, and only that: one that stands alone
/// behind all other arguments and was not mentioned before.
pub proof fn lemma_option_refused(args: Seq<Seq<char>>, name: Seq<char>)
    ensures
        args::option_taken(args, name) is Err <==> args.len() > 0 && args.last() == name && forall|
            k: int,
        |
            0 <= k < args.len() - 1 ==> !mentions(#[trigger] args[k], name),
        args::option_taken(args, name) matches Err(m) ==> m == name + " needs a value"@,
{
    lemma_option_index(args, name, 0);
    lemma_attached(name, name);
    if let Some(j) = args::option_index(args, name, 0) {
        lemma_attached(args[j as int], name);
        if args.len() > 0 && args.last() == name && forall|k: int|
            0 <= k < args.len() - 1 ==> !mentions(#[trigger] args[k], name) {
            if j < args.len() - 1 {
                assert(!mentions(args[j as int], name));
            }
        }
    } else if args.len() > 0 {
        assert(!mentions(args[args.len() - 1], name));
    }
}

// ------------------------------------------------------------------- positionals

/// Whether an argument is a positional one: not a dash with anything behind it.
pub open spec fn positional(arg: Seq<char>) -> bool {
    arg.len() <= 1 || arg[0] != '-'
}

/// The first option that is left.
proof fn lemma_stray(args: Seq<Seq<char>>, from: nat)
    ensures
        match args::stray_option(args, from) {
            Some(a) => exists|i: int|
                {
                    &&& from <= i < args.len()
                    &&& #[trigger] args[i] == a
                    &&& !positional(a)
                    &&& forall|k: int| from <= k < i ==> positional(#[trigger] args[k])
                },
            None => forall|k: int| from <= k < args.len() ==> positional(#[trigger] args[k]),
        },
    decreases args.len() - from,
{
    if from < args.len() {
        if args::is_option(args[from as int]) {
            assert(args[from as int] == args::stray_option(args, from)->0);
        } else {
            lemma_stray(args, from + 1);
            if let Some(a) = args::stray_option(args, from + 1) {
                let i = choose|i: int|
                    {
                        &&& from + 1 <= i < args.len()
                        &&& #[trigger] args[i] == a
                        &&& !positional(a)
                        &&& forall|k: int| from + 1 <= k < i ==> positional(#[trigger] args[k])
                    };
                assert(args[i] == a);
            }
        }
    }
}

/// Arguments are taken if and only if all of them are positional and there are as
/// many as there should be, and then as they are. Otherwise the command line is
/// malformed, and the usage of the command is shown: behind a complaint about the
/// first option that is left, if there is one.
pub proof fn lemma_positionals(args: Seq<Seq<char>>, cmd: Seq<char>, n: nat)
    ensures
        ({
            let r = args::positionals_outcome(args, cmd, n);
            let clean = forall|k: int| 0 <= k < args.len() ==> positional(#[trigger] args[k]);
            &&& r is Ok <==> clean && args.len() == n
            &&& r is Ok ==> r->Ok_0 == args
            &&& clean && args.len() != n ==> r == Err::<Seq<Seq<char>>, FailureView>(
                FailureView::Usage("usage: mfs "@ + cmd + " "@ + args::synopsis(cmd)),
            )
            &&& !clean ==> exists|i: int|
                {
                    &&& 0 <= i < args.len()
                    &&& !positional(#[trigger] args[i])
                    &&& forall|k: int| 0 <= k < i ==> positional(#[trigger] args[k])
                    &&& r == Err::<Seq<Seq<char>>, FailureView>(
                        FailureView::Usage(
                            "mfs "@ + cmd + ": "@ + ("unknown option "@ + args[i]) + "\n"@ + (
                            "usage: mfs "@ + cmd + " "@ + args::synopsis(cmd)),
                        ),
                    )
                }
        }),
{
    lemma_stray(args, 0);
    if let Some(a) = args::stray_option(args, 0) {
        let i = choose|i: int|
            {
                &&& 0 <= i < args.len()
                &&& #[trigger] args[i] == a
                &&& !positional(a)
                &&& forall|k: int| 0 <= k < i ==> positional(#[trigger] args[k])
            };
        assert(!positional(args[i]));
    }
}

// ------------------------------------------------------------------------- codes

/// Whether four bytes are the Finder code that was asked for: its four ASCII
/// characters, or four question marks where none was.
pub open spec fn is_code(value: Option<Seq<char>>, code: Seq<u8>) -> bool {
    &&& code.len() == 4
    &&& match value {
        None => code[0] == '?' as u8 && code[1] == '?' as u8 && code[2] == '?' as u8 && code[3] == '?' as u8,
        Some(s) => s.len() == 4 && forall|i: int|
            0 <= i < 4 ==> (s[i] as int) < 0x80 && #[trigger] code[i] as int == s[i] as int,
    }
}

/// A code is taken if and only if it has four ASCII characters, or was left out.
/// Any other is refused with a message that names the option and shows the value.
pub proof fn lemma_code(value: Option<Seq<char>>, flag: Seq<char>, code: Seq<u8>)
    ensures
        args::code_outcome(value, flag) matches Ok(c) ==> is_code(value, c),
        is_code(value, code) ==> args::code_outcome(value, flag) == Ok::<Seq<u8>, FailureView>(
            code,
        ),
        args::code_outcome(value, flag) is Err ==> value is Some && args::code_outcome(
            value,
            flag,
        ) == Err::<Seq<u8>, FailureView>(
            FailureView::Error(
                flag + " must be exactly four ASCII characters, got "@ + text::quoted(value->0),
            ),
        ),
        value matches Some(s) ==> (args::code_outcome(value, flag) is Ok <==> s.len() == 4
            && forall|i: int| 0 <= i < 4 ==> (#[trigger] s[i] as int) < 0x80),
{
    match value {
        None => {
            let q = args::code_outcome(value, flag)->Ok_0;
            if is_code(value, code) {
                assert(code =~= q);
            }
        },
        Some(s) => {
            if let Ok(c) = args::code_outcome(value, flag) {
                assert forall|i: int| 0 <= i < 4 implies (s[i] as int) < 0x80 && #[trigger] c[i] as int
                    == s[i] as int by {
                    assert((s[i] as int) < 0x80);
                    lemma_ascii_byte(s[i]);
                }
            }
            if is_code(value, code) {
                assert forall|i: int| 0 <= i < s.len() implies (#[trigger] s[i] as int) < 0x80 by {
                    assert(code[i] as int == s[i] as int);
                }
                assert(code =~= args::code_bytes(s)) by {
                    assert forall|i: int| 0 <= i < 4 implies code[i] == args::code_bytes(s)[i] by {
                        assert(code[i] as int == s[i] as int);
                        lemma_ascii_byte(s[i]);
                    }
                }
            }
        },
    }
}

/// The byte of an ASCII character has its number.
proof fn lemma_ascii_byte(c: char)
    requires
        (c as int) < 0x80,
    ensures
        c as u8 as int == c as int,
{
}

// ------------------------------------------------------------------------- sizes

/// Digits stand for a number by their places.
pub proof fn lemma_places(s: Seq<char>, c: char)
    ensures
        args::value_of_digits(Seq::empty()) == 0,
        '0' <= c <= '9' ==> args::value_of_digits(s.push(c)) == 10 * args::value_of_digits(s)
            + text::digit_value(c),
{
    assert(s.push(c).drop_last() =~= s);
}

/// The digits of a number stand for it.
proof fn lemma_decimal_value(n: nat)
    ensures
        args::value_of_digits(text::decimal(n)) == n,
        args::all_digits(text::decimal(n)),
        text::decimal(n)[0] != '+',
    decreases n,
{
    text::lemma_decimal(n, n);
    if n >= 10 {
        lemma_decimal_value(n / 10);
        assert(text::decimal(n).drop_last() =~= text::decimal(n / 10));
    } else {
        lemma_places(Seq::empty(), text::digit(n));
        assert(text::decimal(n) =~= Seq::empty().push(text::digit(n)));
    }
}

/// A size is a number of bytes, or of kilobytes of 1024 bytes with a `k` or `K`
/// behind it, as long as it fits in 32 bits. A plus sign before it makes no
/// difference, and neither does a zero.
#[verifier::rlimit(60)]
pub proof fn lemma_sizes(n: nat, s: Seq<char>)
    ensures
        n <= u32::MAX ==> args::size_outcome(text::decimal(n)) == Ok::<u32, FailureView>(n as u32),
        n * 1024 <= u32::MAX ==> args::size_outcome(text::decimal(n).push('k')) == Ok::<
            u32,
            FailureView,
        >((n * 1024) as u32),
        n * 1024 <= u32::MAX ==> args::size_outcome(text::decimal(n).push('K')) == Ok::<
            u32,
            FailureView,
        >((n * 1024) as u32),
        n > u32::MAX ==> args::size_outcome(text::decimal(n)) is Err,
        n * 1024 > u32::MAX ==> args::size_outcome(text::decimal(n).push('k')) is Err
            && args::size_outcome(text::decimal(n).push('K')) is Err,
        s.len() > 0 && s[0] != '+' ==> args::size_of_text(seq!['+'] + s) == args::size_of_text(s),
        s.len() > 0 && '0' <= s[0] <= '9' ==> args::size_of_text(seq!['0'] + s)
            == args::size_of_text(s),
        args::size_outcome(s) matches Err(f) ==> f == FailureView::Error(
            "--size "@ + text::quoted(s) + " is not 400k, 800k or a byte count"@,
        ),
{
    let d = text::decimal(n);
    lemma_decimal_value(n);
    text::lemma_decimal(n, n);
    assert('0' <= d[d.len() - 1] <= '9');
    assert(d.push('k').drop_last() =~= d);
    assert(d.push('K').drop_last() =~= d);
    if s.len() > 0 && s[0] != '+' {
        let t = seq!['+'] + s;
        assert(t.skip(1) =~= s);
        assert(t.last() == s.last());
        assert(t.drop_last() =~= seq!['+'] + s.drop_last());
        if s.len() > 1 {
            assert(t.drop_last().skip(1) =~= s.drop_last());
            assert(s.drop_last()[0] == s[0]);
        } else {
            assert(t.drop_last().skip(1) =~= s.drop_last());
        }
    }
    if s.len() > 0 && '0' <= s[0] <= '9' {
        let t = seq!['0'] + s;
        assert(t.last() == s.last());
        assert(t.drop_last() =~= seq!['0'] + s.drop_last());
        lemma_leading_zero(s);
        if s.len() > 1 {
            assert(s.drop_last()[0] == s[0]);
            lemma_leading_zero(s.drop_last());
        }
    }
}

/// A zero before a number makes no difference.
proof fn lemma_leading_zero(s: Seq<char>)
    ensures
        args::value_of_digits(seq!['0'] + s) == args::value_of_digits(s),
        s.len() > 0 && s[0] != '+' ==> args::number(seq!['0'] + s) == args::number(s),
    decreases s.len(),
{
    let t = seq!['0'] + s;
    if s.len() > 0 {
        assert(t.drop_last() =~= seq!['0'] + s.drop_last());
        lemma_leading_zero(s.drop_last());
        if args::all_digits(s) {
            assert forall|i: int| 0 <= i < t.len() implies args::is_digit(#[trigger] t[i]) by {
                if i > 0 {
                    assert(t[i] == s[i - 1]);
                }
            }
        }
        if args::all_digits(t) {
            assert forall|i: int| 0 <= i < s.len() implies args::is_digit(#[trigger] s[i]) by {
                assert(s[i] == t[i + 1]);
            }
        }
    } else {
        assert(t =~= Seq::empty().push('0'));
        lemma_places(Seq::empty(), '0');
        assert(s =~= Seq::empty());
    }
}

/// What is not made of digits, but for a plus sign before and a `k` or `K` behind
/// them, is no size.
pub proof fn lemma_not_a_size(s: Seq<char>, i: int)
    requires
        0 <= i < s.len(),
        !('0' <= s[i] <= '9'),
        i > 0 || s[i] != '+',
        i < s.len() - 1 || s[i] != 'k' && s[i] != 'K',
    ensures
        args::size_outcome(s) is Err,
{
    let kilo = args::in_kilobytes(s);
    let t = if kilo {
        s.drop_last()
    } else {
        s
    };
    if args::number(t) is Some {
        if i < t.len() {
            assert(t[i] == s[i]);
            if t[0] == '+' {
                assert(!args::is_digit(t.skip(1)[i - 1]));
            } else {
                assert(!args::is_digit(t[i]));
            }
        }
    }
}

// ---------------------------------------------------------------------- commands

/// The words for commands and help are all different.
proof fn lemma_words()
    ensures
        forall|a: int, b: int|
            0 <= a < b < 13 ==> #[trigger] words()[a] != #[trigger] words()[b],
        words().len() == 13,
{
    reveal_strlit("help");
    reveal_strlit("-h");
    reveal_strlit("--help");
    reveal_strlit("info");
    reveal_strlit("ls");
    reveal_strlit("cat");
    reveal_strlit("extract");
    reveal_strlit("add");
    reveal_strlit("rm");
    reveal_strlit("mv");
    reveal_strlit("mkfs");
    reveal_strlit("check");
    reveal_strlit("bootblocks");
    let w = words();
    assert(w[0].len() == 4 && w[0][0] == 'h');
    assert(w[1].len() == 2 && w[1][0] == '-');
    assert(w[2].len() == 6);
    assert(w[3].len() == 4 && w[3][0] == 'i');
    assert(w[4].len() == 2 && w[4][0] == 'l');
    assert(w[5].len() == 3 && w[5][0] == 'c');
    assert(w[6].len() == 7);
    assert(w[7].len() == 3 && w[7][0] == 'a');
    assert(w[8].len() == 2 && w[8][0] == 'r');
    assert(w[9].len() == 2 && w[9][0] == 'm');
    assert(w[10].len() == 4 && w[10][0] == 'm');
    assert(w[11].len() == 5);
    assert(w[12].len() == 10);
}

/// The words for help and for the commands.
pub open spec fn words() -> Seq<Seq<char>> {
    seq![
        "help"@,
        "-h"@,
        "--help"@,
        "info"@,
        "ls"@,
        "cat"@,
        "extract"@,
        "add"@,
        "rm"@,
        "mv"@,
        "mkfs"@,
        "check"@,
        "bootblocks"@,
    ]
}

/// What the first word of a command line decides.
#[verifier::rlimit(60)]
proof fn lemma_dispatch(line: Seq<Seq<char>>)
    requires
        line.len() > 0,
    ensures
        ({
            let r = args::command_outcome(line);
            let rest = line.skip(1);
            &&& line[0] == "help"@ || line[0] == "-h"@ || line[0] == "--help"@ ==> r == Ok::<
                CommandView,
                FailureView,
            >(CommandView::Help)
            &&& line[0] == "info"@ ==> r == args::info_outcome(rest)
            &&& line[0] == "ls"@ ==> r == args::ls_outcome(rest)
            &&& line[0] == "cat"@ ==> r == args::cat_outcome(rest)
            &&& line[0] == "extract"@ ==> r == args::extract_outcome(rest)
            &&& line[0] == "add"@ ==> r == args::add_outcome(rest)
            &&& line[0] == "rm"@ ==> r == args::rm_outcome(rest)
            &&& line[0] == "mv"@ ==> r == args::mv_outcome(rest)
            &&& line[0] == "mkfs"@ ==> r == args::mkfs_outcome(rest)
            &&& line[0] == "check"@ ==> r == args::check_outcome(rest)
            &&& line[0] == "bootblocks"@ ==> r == args::bootblocks_outcome(rest)
        }),
{
    lemma_words();
    let w = words();
    assert(line.remove(0) =~= line.skip(1));
    assert(w[0] == "help"@ && w[1] == "-h"@ && w[2] == "--help"@ && w[3] == "info"@ && w[4]
        == "ls"@ && w[5] == "cat"@ && w[6] == "extract"@ && w[7] == "add"@ && w[8] == "rm"@ && w[9]
        == "mv"@ && w[10] == "mkfs"@ && w[11] == "check"@ && w[12] == "bootblocks"@);
}

/// Help is asked for by any of three words. An empty command line and one that
/// begins with any other word than a command's are malformed, and the overview is
/// shown.
#[verifier::rlimit(60)]
pub proof fn lemma_overview_shown(line: Seq<Seq<char>>)
    ensures
        args::command_outcome(line) == Ok::<CommandView, FailureView>(CommandView::Help)
            <==> line.len() > 0 && (line[0] == "help"@ || line[0] == "-h"@ || line[0]
            == "--help"@),
        line.len() == 0 ==> args::command_outcome(line) == Err::<CommandView, FailureView>(
            FailureView::Usage(args::overview()),
        ),
        line.len() > 0 && !words().contains(line[0]) ==> args::command_outcome(line) == Err::<
            CommandView,
            FailureView,
        >(
            FailureView::Usage(
                "mfs: unknown command "@ + text::quoted(line[0]) + "\n"@ + args::overview(),
            ),
        ),
{
    if line.len() > 0 {
        lemma_dispatch(line);
        let w = words();
        if !w.contains(line[0]) {
            assert(w[0] == "help"@ && w[1] == "-h"@ && w[2] == "--help"@ && w[3] == "info"@ && w[4]
                == "ls"@ && w[5] == "cat"@ && w[6] == "extract"@ && w[7] == "add"@ && w[8] == "rm"@
                && w[9] == "mv"@ && w[10] == "mkfs"@ && w[11] == "check"@ && w[12]
                == "bootblocks"@);
        }
    }
}

/// Two arguments and no options.
proof fn lemma_pair(args: Seq<Seq<char>>, cmd: Seq<char>, a: Seq<char>, b: Seq<char>)
    ensures
        args::positionals_outcome(args, cmd, 2) is Ok ==> args == seq![args[0], args[1]]
            && positional(args[0]) && positional(args[1]),
        args == seq![a, b] && positional(a) && positional(b) ==> args::positionals_outcome(
            args,
            cmd,
            2,
        ) == Ok::<Seq<Seq<char>>, FailureView>(args) && args[0] == a && args[1] == b,
        args::positionals_outcome(args, cmd, 2) is Ok ==> args::positionals_outcome(args, cmd, 2)
            == Ok::<Seq<Seq<char>>, FailureView>(args),
{
    lemma_positionals(args, cmd, 2);
    if args::positionals_outcome(args, cmd, 2) is Ok {
        assert(args =~= seq![args[0], args[1]]);
    }
}

/// One argument and no options.
proof fn lemma_single(args: Seq<Seq<char>>, cmd: Seq<char>, a: Seq<char>)
    ensures
        args::positionals_outcome(args, cmd, 1) is Ok ==> args == seq![args[0]] && positional(
            args[0],
        ),
        args == seq![a] && positional(a) ==> args::positionals_outcome(args, cmd, 1) == Ok::<
            Seq<Seq<char>>,
            FailureView,
        >(args) && args[0] == a,
        args::positionals_outcome(args, cmd, 1) is Ok ==> args::positionals_outcome(args, cmd, 1)
            == Ok::<Seq<Seq<char>>, FailureView>(args),
{
    lemma_positionals(args, cmd, 1);
    if args::positionals_outcome(args, cmd, 1) is Ok {
        assert(args =~= seq![args[0]]);
    }
}

/// `info` takes an image and nothing else.
#[verifier::rlimit(60)]
pub proof fn lemma_info_line(line: Seq<Seq<char>>, image: Seq<char>)
    ensures
        args::command_outcome(line) == Ok::<CommandView, FailureView>(CommandView::Info { image })
            <==> line == seq!["info"@, image] && positional(image),
{
    if line.len() > 0 {
        lemma_dispatch(line);
        lemma_single(line.skip(1), "info"@, image);
        assert(seq!["info"@, image].skip(1) =~= seq![image]);
        assert(line =~= seq![line[0]] + line.skip(1));
        assert(seq!["info"@] + seq![image] =~= seq!["info"@, image]);
    }
}

/// `check` takes an image and nothing else.
#[verifier::rlimit(60)]
pub proof fn lemma_check_line(line: Seq<Seq<char>>, image: Seq<char>)
    ensures
        args::command_outcome(line) == Ok::<CommandView, FailureView>(CommandView::Check { image })
            <==> line == seq!["check"@, image] && positional(image),
{
    if line.len() > 0 {
        lemma_dispatch(line);
        lemma_single(line.skip(1), "check"@, image);
        assert(seq!["check"@, image].skip(1) =~= seq![image]);
        assert(line =~= seq![line[0]] + line.skip(1));
        assert(seq!["check"@] + seq![image] =~= seq!["check"@, image]);
    }
}

/// `mv` takes an image, the name of a file and its new name, in this order.
#[verifier::rlimit(60)]
pub proof fn lemma_mv_line(
    line: Seq<Seq<char>>,
    image: Seq<char>,
    from: Seq<char>,
    to: Seq<char>,
)
    ensures
        args::command_outcome(line) == Ok::<CommandView, FailureView>(
            CommandView::Mv { image, from, to },
        ) <==> line == seq!["mv"@, image, from, to] && positional(image) && positional(from)
            && positional(to),
{
    if line.len() > 0 {
        lemma_dispatch(line);
        let rest = line.skip(1);
        let three = seq![image, from, to];
        lemma_three(rest, "mv"@, image, from, to);
        assert(seq!["mv"@, image, from, to].skip(1) =~= three);
        assert(line =~= seq![line[0]] + rest);
        assert(seq!["mv"@] + three =~= seq!["mv"@, image, from, to]);
    }
}

/// Three arguments and no options.
proof fn lemma_three(
    args: Seq<Seq<char>>,
    cmd: Seq<char>,
    a: Seq<char>,
    b: Seq<char>,
    c: Seq<char>,
)
    ensures
        args::positionals_outcome(args, cmd, 3) matches Ok(p) ==> p == args && args == seq![
            args[0],
            args[1],
            args[2],
        ] && positional(args[0]) && positional(args[1]) && positional(args[2]),
        args == seq![a, b, c] && positional(a) && positional(b) && positional(c)
            ==> args::positionals_outcome(args, cmd, 3) == Ok::<Seq<Seq<char>>, FailureView>(args)
            && args[0] == a && args[1] == b && args[2] == c,
{
    lemma_positionals(args, cmd, 3);
    if args::positionals_outcome(args, cmd, 3) is Ok {
        assert(args =~= seq![args[0], args[1], args[2]]);
    }
}

/// `ls` takes an image, and lists more than names if and only if `-l` is there.
#[verifier::rlimit(60)]
pub proof fn lemma_ls_line(line: Seq<Seq<char>>, image: Seq<char>, long: bool)
    ensures
        args::command_outcome(line) == Ok::<CommandView, FailureView>(
            CommandView::Ls { image, long },
        ) <==> line.len() > 0 && line[0] == "ls"@ && positional(image) && without_flag(
            line.skip(1),
            "-l"@,
            long,
            seq![image],
        ),
{
    if line.len() > 0 {
        lemma_dispatch(line);
        let rest = line.skip(1);
        let (f, p) = args::flag_taken(rest, "-l"@);
        lemma_flag_taken(rest, "-l"@, f, p);
        lemma_flag_taken(rest, "-l"@, long, seq![image]);
        lemma_single(p, "ls"@, image);
    }
}

/// `rm` takes an image and the name of a file, and goes past its lock if and only
/// if `--force` is there.
#[verifier::rlimit(60)]
pub proof fn lemma_rm_line(line: Seq<Seq<char>>, image: Seq<char>, name: Seq<char>, force: bool)
    ensures
        args::command_outcome(line) == Ok::<CommandView, FailureView>(
            CommandView::Rm { image, name, force },
        ) <==> line.len() > 0 && line[0] == "rm"@ && positional(image) && positional(name)
            && without_flag(line.skip(1), "--force"@, force, seq![image, name]),
{
    if line.len() > 0 {
        lemma_dispatch(line);
        let rest = line.skip(1);
        let (f, p) = args::flag_taken(rest, "--force"@);
        lemma_flag_taken(rest, "--force"@, f, p);
        lemma_flag_taken(rest, "--force"@, force, seq![image, name]);
        lemma_pair(p, "rm"@, image, name);
    }
}

/// `cat` takes an image and the name of a file, and prints the resource fork if
/// and only if `--rsrc` is there, the data fork otherwise.
#[verifier::rlimit(60)]
pub proof fn lemma_cat_line(line: Seq<Seq<char>>, image: Seq<char>, name: Seq<char>, fork: Fork)
    ensures
        args::command_outcome(line) == Ok::<CommandView, FailureView>(
            CommandView::Cat { image, name, fork },
        ) <==> line.len() > 0 && line[0] == "cat"@ && positional(image) && positional(name)
            && without_flag(line.skip(1), "--rsrc"@, fork == Fork::Resource, seq![image, name]),
{
    if line.len() > 0 {
        lemma_dispatch(line);
        let rest = line.skip(1);
        let (f, p) = args::flag_taken(rest, "--rsrc"@);
        lemma_flag_taken(rest, "--rsrc"@, f, p);
        lemma_flag_taken(rest, "--rsrc"@, fork == Fork::Resource, seq![image, name]);
        lemma_pair(p, "cat"@, image, name);
    }
}

/// An option of a command that was given a value, or not given at all.
proof fn lemma_option_outcome(
    args: Seq<Seq<char>>,
    cmd: Seq<char>,
    name: Seq<char>,
    value: Option<Seq<char>>,
    rest: Seq<Seq<char>>,
)
    ensures
        args::option_outcome(args, cmd, name) == Ok::<
            (Option<Seq<char>>, Seq<Seq<char>>),
            FailureView,
        >((value, rest)) <==> without_option(args, name, value, rest),
        args::option_outcome(args, cmd, name) matches Ok(t) ==> without_option(
            args,
            name,
            t.0,
            t.1,
        ),
{
    lemma_option_taken(args, name, value, rest);
    if let Ok(t) = args::option_taken(args, name) {
        lemma_option_taken(args, name, t.0, t.1);
    }
}

/// Whether the arguments of `extract` ask for this: `--rsrc` chooses the resource
/// fork, `-o` names the host file, and an image and a file are left. `a` is what
/// is left without the flag.
pub open spec fn extract_asked(
    args: Seq<Seq<char>>,
    a: Seq<Seq<char>>,
    image: Seq<char>,
    name: Seq<char>,
    fork: Fork,
    out: Option<Seq<char>>,
) -> bool {
    &&& without_flag(args, "--rsrc"@, fork == Fork::Resource, a)
    &&& without_option(a, "-o"@, out, seq![image, name])
    &&& positional(image)
    &&& positional(name)
}

/// `extract` is understood if and only if its arguments ask for it.
#[verifier::rlimit(60)]
pub proof fn lemma_extract_line(
    line: Seq<Seq<char>>,
    a: Seq<Seq<char>>,
    image: Seq<char>,
    name: Seq<char>,
    fork: Fork,
    out: Option<Seq<char>>,
)
    ensures
        line.len() > 0 && line[0] == "extract"@ && extract_asked(
            line.skip(1),
            a,
            image,
            name,
            fork,
            out,
        ) ==> args::command_outcome(line) == Ok::<CommandView, FailureView>(
            CommandView::Extract { image, name, fork, out },
        ),
        args::command_outcome(line) == Ok::<CommandView, FailureView>(
            CommandView::Extract { image, name, fork, out },
        ) ==> line.len() > 0 && line[0] == "extract"@ && exists|b: Seq<Seq<char>>|
            #[trigger] extract_asked(line.skip(1), b, image, name, fork, out),
{
    if line.len() > 0 {
        lemma_dispatch(line);
        let rest = line.skip(1);
        let (f, p) = args::flag_taken(rest, "--rsrc"@);
        lemma_flag_taken(rest, "--rsrc"@, f, p);
        lemma_flag_taken(rest, "--rsrc"@, fork == Fork::Resource, a);
        lemma_option_outcome(p, "extract"@, "-o"@, out, seq![image, name]);
        if let Ok((o, q)) = args::option_outcome(p, "extract"@, "-o"@) {
            lemma_pair(q, "extract"@, image, name);
            if args::command_outcome(line) == Ok::<CommandView, FailureView>(
                CommandView::Extract { image, name, fork, out },
            ) {
                assert(extract_asked(rest, p, image, name, fork, out));
            }
        }
    }
}

/// Whether the arguments of `add` ask for this: `--name` gives the name, `--type`
/// the type, `--creator` the creator and `--rsrc` the host file of the resource
/// fork, and an image and a host file are left. `steps` are what is left after
/// each of the first three.
pub open spec fn add_asked(
    args: Seq<Seq<char>>,
    steps: (Seq<Seq<char>>, Seq<Seq<char>>, Seq<Seq<char>>),
    image: Seq<char>,
    hostfile: Seq<char>,
    name: Option<Seq<char>>,
    type_text: Option<Seq<char>>,
    creator_text: Option<Seq<char>>,
    rsrc: Option<Seq<char>>,
) -> bool {
    &&& without_option(args, "--name"@, name, steps.0)
    &&& without_option(steps.0, "--type"@, type_text, steps.1)
    &&& without_option(steps.1, "--creator"@, creator_text, steps.2)
    &&& without_option(steps.2, "--rsrc"@, rsrc, seq![image, hostfile])
    &&& positional(image)
    &&& positional(hostfile)
}

/// `add` is understood if and only if its arguments ask for it, the code behind
/// `--type` being the type and the one behind `--creator` the creator.
#[verifier::rlimit(60)]
pub proof fn lemma_add_line(
    line: Seq<Seq<char>>,
    steps: (Seq<Seq<char>>, Seq<Seq<char>>, Seq<Seq<char>>),
    image: Seq<char>,
    hostfile: Seq<char>,
    name: Option<Seq<char>>,
    texts: (Option<Seq<char>>, Option<Seq<char>>),
    codes: (Seq<u8>, Seq<u8>),
    rsrc: Option<Seq<char>>,
)
    ensures
        ({
            let asked = CommandView::Add {
                image,
                hostfile,
                name,
                type_code: codes.0,
                creator: codes.1,
                rsrc,
            };
            &&& line.len() > 0 && line[0] == "add"@ && add_asked(
                line.skip(1),
                steps,
                image,
                hostfile,
                name,
                texts.0,
                texts.1,
                rsrc,
            ) && is_code(texts.0, codes.0) && is_code(texts.1, codes.1) ==> args::command_outcome(
                line,
            ) == Ok::<CommandView, FailureView>(asked)
            &&& args::command_outcome(line) == Ok::<CommandView, FailureView>(asked) ==> line.len()
                > 0 && line[0] == "add"@ && exists|
                s: (Seq<Seq<char>>, Seq<Seq<char>>, Seq<Seq<char>>),
                t: (Option<Seq<char>>, Option<Seq<char>>),
            |
                is_code(t.0, codes.0) && is_code(t.1, codes.1) && #[trigger] add_asked(
                    line.skip(1),
                    s,
                    image,
                    hostfile,
                    name,
                    t.0,
                    t.1,
                    rsrc,
                )
        }),
{
    if line.len() > 0 {
        lemma_dispatch(line);
        let a0 = line.skip(1);
        lemma_option_outcome(a0, "add"@, "--name"@, name, steps.0);
        lemma_option_outcome(steps.0, "add"@, "--type"@, texts.0, steps.1);
        lemma_option_outcome(steps.1, "add"@, "--creator"@, texts.1, steps.2);
        lemma_option_outcome(steps.2, "add"@, "--rsrc"@, rsrc, seq![image, hostfile]);
        lemma_pair(seq![image, hostfile], "add"@, image, hostfile);
        lemma_code(texts.0, "--type"@, codes.0);
        lemma_code(texts.1, "--creator"@, codes.1);
        if args::command_outcome(line) is Ok && args::command_outcome(line)->Ok_0 is Add {
            let (n, a1) = args::option_outcome(a0, "add"@, "--name"@)->Ok_0;
            lemma_option_outcome(a0, "add"@, "--name"@, n, a1);
            let (t, a2) = args::option_outcome(a1, "add"@, "--type"@)->Ok_0;
            lemma_option_outcome(a1, "add"@, "--type"@, t, a2);
            let (c, a3) = args::option_outcome(a2, "add"@, "--creator"@)->Ok_0;
            lemma_option_outcome(a2, "add"@, "--creator"@, c, a3);
            let (r, a4) = args::option_outcome(a3, "add"@, "--rsrc"@)->Ok_0;
            lemma_option_outcome(a3, "add"@, "--rsrc"@, r, a4);
            lemma_pair(a4, "add"@, image, hostfile);
            lemma_code(t, "--type"@, codes.0);
            lemma_code(c, "--creator"@, codes.1);
            if args::command_outcome(line)->Ok_0 == (CommandView::Add {
                image,
                hostfile,
                name,
                type_code: codes.0,
                creator: codes.1,
                rsrc,
            }) {
                assert(is_code((t, c).0, codes.0) && is_code((t, c).1, codes.1));
                assert(add_asked(
                    a0,
                    (a1, a2, a3),
                    image,
                    hostfile,
                    name,
                    (t, c).0,
                    (t, c).1,
                    rsrc,
                ));
            }
        }
    }
}

/// Whether the arguments of `mkfs` ask for this: `--size` gives the size and
/// `--name` the name, `--dc42` chooses the container and `--force` allows an image
/// to be overwritten, and an image is left. `steps` are what is left after each of
/// the first three.
pub open spec fn mkfs_asked(
    args: Seq<Seq<char>>,
    steps: (Seq<Seq<char>>, Seq<Seq<char>>, Seq<Seq<char>>),
    image: Seq<char>,
    size_text: Option<Seq<char>>,
    name: Option<Seq<char>>,
    format: ImageFormat,
    force: bool,
) -> bool {
    &&& without_option(args, "--size"@, size_text, steps.0)
    &&& without_option(steps.0, "--name"@, name, steps.1)
    &&& without_flag(steps.1, "--dc42"@, format == ImageFormat::DiskCopy42, steps.2)
    &&& without_flag(steps.2, "--force"@, force, seq![image])
    &&& positional(image)
}

/// `mkfs` is understood where its arguments ask for it. A volume has 400K and the
/// name `Untitled` unless something else is asked for.
#[verifier::rlimit(60)]
pub proof fn lemma_mkfs_line(
    line: Seq<Seq<char>>,
    steps: (Seq<Seq<char>>, Seq<Seq<char>>, Seq<Seq<char>>),
    image: Seq<char>,
    size_text: Option<Seq<char>>,
    size: u32,
    given: Option<Seq<char>>,
    name: Seq<char>,
    format: ImageFormat,
    force: bool,
)
    ensures
        ({
            line.len() > 0 && line[0] == "mkfs"@ && mkfs_asked(
                line.skip(1),
                steps,
                image,
                size_text,
                given,
                format,
                force,
            ) && is_size(size_text, size) && is_name(given, name) ==> args::command_outcome(line) == Ok::<CommandView, FailureView>(
                CommandView::Mkfs { image, size, name, format, force },
            )
        }),
{
    if line.len() > 0 {
        lemma_dispatch(line);
        let a0 = line.skip(1);
        let dc42 = format == ImageFormat::DiskCopy42;
        lemma_option_outcome(a0, "mkfs"@, "--size"@, size_text, steps.0);
        lemma_option_outcome(steps.0, "mkfs"@, "--name"@, given, steps.1);
        lemma_flag_taken(steps.1, "--dc42"@, dc42, steps.2);
        lemma_flag_taken(steps.2, "--force"@, force, seq![image]);
        lemma_single(seq![image], "mkfs"@, image);
    }
}

/// Whether a size was asked for as `given`, or is that of a 400K disk.
pub open spec fn is_size(given: Option<Seq<char>>, size: u32) -> bool {
    match given {
        Some(s) => args::size_outcome(s) == Ok::<u32, FailureView>(size),
        None => size == 400 * 1024,
    }
}

/// Whether a name was asked for as `given`, or is `Untitled`.
pub open spec fn is_name(given: Option<Seq<char>>, name: Seq<char>) -> bool {
    match given {
        Some(n) => n == name,
        None => name == "Untitled"@,
    }
}

/// Where `mkfs` is understood, its arguments ask for it.
#[verifier::rlimit(60)]
pub proof fn lemma_mkfs_asked(
    line: Seq<Seq<char>>,
    image: Seq<char>,
    size: u32,
    name: Seq<char>,
    format: ImageFormat,
    force: bool,
) -> (r: ((Seq<Seq<char>>, Seq<Seq<char>>, Seq<Seq<char>>), Option<Seq<char>>, Option<Seq<char>>))
    requires
        args::command_outcome(line) == Ok::<CommandView, FailureView>(
            CommandView::Mkfs { image, size, name, format, force },
        ),
    ensures
        line.len() > 0,
        line[0] == "mkfs"@,
        mkfs_asked(line.skip(1), r.0, image, r.1, r.2, format, force),
        is_size(r.1, size),
        is_name(r.2, name),
{
    lemma_dispatch(line);
    let a0 = line.skip(1);
    assert(line.remove(0) =~= a0);
    assert(line[0] == "mkfs"@);
    let (t, a1) = args::option_outcome(a0, "mkfs"@, "--size"@)->Ok_0;
    lemma_option_outcome(a0, "mkfs"@, "--size"@, t, a1);
    let (g, a2) = args::option_outcome(a1, "mkfs"@, "--name"@)->Ok_0;
    lemma_option_outcome(a1, "mkfs"@, "--name"@, g, a2);
    let (d, a3) = args::flag_taken(a2, "--dc42"@);
    lemma_flag_taken(a2, "--dc42"@, d, a3);
    let (o, a4) = args::flag_taken(a3, "--force"@);
    lemma_flag_taken(a3, "--force"@, o, a4);
    lemma_single(a4, "mkfs"@, image);
    ((a1, a2, a3), t, g)
}

/// Whether the arguments of `bootblocks` have these values behind `--export` and
/// `--import`, and an image is left. `a` is what is left after the first.
pub open spec fn bootblocks_asked(
    args: Seq<Seq<char>>,
    a: Seq<Seq<char>>,
    image: Seq<char>,
    export: Option<Seq<char>>,
    import: Option<Seq<char>>,
) -> bool {
    &&& without_option(args, "--export"@, export, a)
    &&& without_option(a, "--import"@, import, seq![image])
    &&& positional(image)
}

/// `bootblocks` copies the boot blocks to the file behind `--export`, installs
/// those of the file behind `--import`, and says what they are where neither is
/// there. Both at once are refused.
#[verifier::rlimit(60)]
pub proof fn lemma_bootblocks_line(
    line: Seq<Seq<char>>,
    a: Seq<Seq<char>>,
    image: Seq<char>,
    export: Option<Seq<char>>,
    import: Option<Seq<char>>,
)
    ensures
        line.len() > 0 && line[0] == "bootblocks"@ && bootblocks_asked(
            line.skip(1),
            a,
            image,
            export,
            import,
        ) ==> {
            let r = args::command_outcome(line);
            &&& export is None && import is None ==> r == Ok::<CommandView, FailureView>(
                CommandView::BootBlocks { image, action: BootActionView::Show },
            )
            &&& export is Some && import is None ==> r == Ok::<CommandView, FailureView>(
                CommandView::BootBlocks { image, action: BootActionView::Export(export->0) },
            )
            &&& export is None && import is Some ==> r == Ok::<CommandView, FailureView>(
                CommandView::BootBlocks { image, action: BootActionView::Import(import->0) },
            )
            &&& export is Some && import is Some ==> r is Err && r->Err_0 is Usage
        },
{
    if line.len() > 0 {
        lemma_dispatch(line);
        let a0 = line.skip(1);
        lemma_option_outcome(a0, "bootblocks"@, "--export"@, export, a);
        lemma_option_outcome(a, "bootblocks"@, "--import"@, import, seq![image]);
        lemma_single(seq![image], "bootblocks"@, image);
    }
}

/// Where `bootblocks` is understood, its arguments have at most one of the two
/// options.
#[verifier::rlimit(60)]
pub proof fn lemma_bootblocks_asked(
    line: Seq<Seq<char>>,
    image: Seq<char>,
    action: BootActionView,
) -> (r: (Seq<Seq<char>>, Option<Seq<char>>, Option<Seq<char>>))
    requires
        args::command_outcome(line) == Ok::<CommandView, FailureView>(
            CommandView::BootBlocks { image, action },
        ),
    ensures
        line.len() > 0,
        line[0] == "bootblocks"@,
        bootblocks_asked(line.skip(1), r.0, image, r.1, r.2),
        action == (match (r.1, r.2) {
            (Some(path), None) => BootActionView::Export(path),
            (None, Some(path)) => BootActionView::Import(path),
            _ => BootActionView::Show,
        }),
        r.1 is None || r.2 is None,
{
    lemma_dispatch(line);
    let a0 = line.skip(1);
    assert(line.remove(0) =~= a0);
    assert(line[0] == "bootblocks"@);
    let (x, a1) = args::option_outcome(a0, "bootblocks"@, "--export"@)->Ok_0;
    lemma_option_outcome(a0, "bootblocks"@, "--export"@, x, a1);
    let (y, a2) = args::option_outcome(a1, "bootblocks"@, "--import"@)->Ok_0;
    lemma_option_outcome(a1, "bootblocks"@, "--import"@, y, a2);
    lemma_single(a2, "bootblocks"@, image);
    (a1, x, y)
}

// ------------------------------------------------------------------------- usage

/// Whether `part` stands somewhere in `whole`.
pub open spec fn shows(whole: Seq<char>, part: Seq<char>) -> bool {
    exists|i: int|
        0 <= i && i + part.len() <= whole.len() && #[trigger] whole.subrange(
            i,
            i + part.len() as int,
        ) == part
}

/// The usage line of a command begins with the command, and every complaint about
/// a command ends with that line, behind what is wrong.
pub proof fn lemma_usage_shown(cmd: Seq<char>, problem: Seq<char>)
    ensures
        args::line_for(cmd) == "usage: mfs "@ + cmd + " "@ + args::synopsis(cmd),
        args::complaint(cmd, problem) is Usage,
        args::complaint(cmd, problem)->Usage_0 == "mfs "@ + cmd + ": "@ + problem + "\n"@
            + args::line_for(cmd),
{
}

/// The arguments of every command, as they are shown: what it takes, and behind
/// that every option that it understands.
#[verifier::rlimit(60)]
pub proof fn lemma_synopses()
    ensures
        args::synopsis("info"@) == "<image>"@,
        args::synopsis("ls"@) == "<image> [-l]"@,
        args::synopsis("cat"@) == "<image> <name> [--rsrc]"@,
        args::synopsis("extract"@) == "<image> <name> [--rsrc] [-o PATH]"@,
        args::synopsis("add"@)
            == "<image> <hostfile> [--name N] [--type XXXX] [--creator XXXX] [--rsrc HOSTFILE]"@,
        args::synopsis("rm"@) == "<image> <name> [--force]"@,
        args::synopsis("mv"@) == "<image> <old> <new>"@,
        args::synopsis("mkfs"@)
            == "<image> [--size 400k|800k|BYTES] [--name NAME] [--dc42] [--force]"@,
        args::synopsis("check"@) == "<image>"@,
        args::synopsis("bootblocks"@) == "<image> [--export FILE | --import FILE]"@,
{
    lemma_words();
    let w = words();
    assert(w[3] == "info"@ && w[4] == "ls"@ && w[5] == "cat"@ && w[6] == "extract"@ && w[7]
        == "add"@ && w[8] == "rm"@ && w[9] == "mv"@ && w[10] == "mkfs"@ && w[11] == "check"@ && w[12]
        == "bootblocks"@);
}

/// `head` with the first `k` of some lines behind it.
spec fn listed(head: Seq<char>, lines: Seq<Seq<char>>, k: nat) -> Seq<char>
    decreases k,
{
    if k == 0 {
        head
    } else {
        listed(head, lines, (k - 1) as nat) + lines[k - 1]
    }
}

/// What is listed first stands before what is listed later.
proof fn lemma_listed(head: Seq<char>, lines: Seq<Seq<char>>, k: nat, n: nat, tail: Seq<char>)
    requires
        k <= n,
    ensures
        listed(head, lines, k).is_prefix_of(listed(head, lines, n) + tail),
        k < n ==> shows(listed(head, lines, n) + tail, lines[k as int]),
    decreases n - k,
{
    let whole = listed(head, lines, n) + tail;
    let before = listed(head, lines, k);
    if k == n {
        assert(whole.subrange(0, before.len() as int) =~= before);
    } else {
        lemma_listed(head, lines, k + 1, n, tail);
        let part = lines[k as int];
        let i = before.len() as int;
        let end = i + part.len() as int;
        assert(whole.subrange(0, end) == before + part);
        assert(whole.subrange(0, i) =~= before) by {
            assert(whole.subrange(0, i) =~= whole.subrange(0, end).subrange(0, i));
        }
        assert(whole.subrange(i, end) =~= part) by {
            assert(whole.subrange(i, end) =~= whole.subrange(0, end).subrange(i, end));
        }
    }
}

/// The overview begins with how to call the program and has a line for every
/// command, with the arguments that it takes.
pub proof fn lemma_overview(i: int)
    requires
        3 <= i < 13,
    ensures
        "usage: mfs <command> [arguments]\n\n"@.is_prefix_of(args::overview()),
        shows(
            args::overview(),
            "  "@ + text::pad_right(words()[i], 10) + " "@ + args::synopsis(words()[i]) + "\n"@,
        ),
{
    let head = "usage: mfs <command> [arguments]\n\n"@;
    let tail =
        "\nImages may be raw sector dumps or DiskCopy 4.2 containers; the container is\ndetected when the image is opened and preserved when it is written back."@;
    let lines = Seq::new(10, |k: int| args::overview_line(words()[k + 3]));
    assert(args::overview() == listed(head, lines, 10) + tail) by {
        reveal_with_fuel(listed, 11);
    }
    lemma_listed(head, lines, 0, 10, tail);
    lemma_listed(head, lines, (i - 3) as nat, 10, tail);
    assert(lines[i - 3] == args::overview_line(words()[i]));
}

} // verus!
