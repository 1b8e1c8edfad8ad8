//! Building the text of messages and listings.
//!
//! A number is written out digit by digit into a growing `String`, and every
//! step says which characters it appended, so that a message is known exactly.

use vstd::prelude::*;
use vstd::string::*;

verus! {

/// `String::push` appends one character.
pub assume_specification[ String::push ](s: &mut String, c: char)
    ensures
        final(s)@ == old(s)@.push(c),
;

/// The character of a digit below sixteen, in lower case.
pub open spec fn digit(d: nat) -> char {
    if d < 10 {
        (48 + d) as char
    } else {
        (87 + d) as char
    }
}

/// `n` in decimal, without leading zeros.
pub open spec fn decimal(n: nat) -> Seq<char>
    decreases n,
{
    if n < 10 {
        seq![digit(n)]
    } else {
        decimal(n / 10).push(digit(n % 10))
    }
}

/// The low `width` hexadecimal digits of `n`, most significant first.
pub open spec fn hex_digits(n: nat, width: nat) -> Seq<char>
    decreases width,
{
    if width == 0 {
        Seq::empty()
    } else {
        hex_digits(n / 16, (width - 1) as nat).push(digit(n % 16))
    }
}

/// `n` behind `0x`, as `width` hexadecimal digits.
pub open spec fn hex(n: nat, width: nat) -> Seq<char> {
    "0x"@ + hex_digits(n, width)
}

/// `n` copies of `c`.
pub open spec fn fill(c: char, n: nat) -> Seq<char> {
    Seq::new(n, |i: int| c)
}

/// `s` behind as many `c` as it takes to reach `width` characters.
pub open spec fn pad_left(s: Seq<char>, width: nat, c: char) -> Seq<char> {
    if s.len() < width {
        fill(c, (width - s.len()) as nat) + s
    } else {
        s
    }
}

/// `s` followed by as many spaces as it takes to reach `width` characters.
pub open spec fn pad_right(s: Seq<char>, width: nat) -> Seq<char> {
    if s.len() < width {
        s + fill(' ', (width - s.len()) as nat)
    } else {
        s
    }
}

/// A string between double quotes, with what cannot be printed escaped, as
/// `{:?}` shows it.
pub uninterp spec fn quoted(s: Seq<char>) -> Seq<char>;

/// A character between single quotes, escaped where it cannot be printed, as
/// `{:?}` shows it.
pub uninterp spec fn quoted_char(c: char) -> Seq<char>;

/// The texts of some lines.
pub open spec fn texts(lines: Seq<String>) -> Seq<Seq<char>> {
    Seq::new(lines.len(), |i: int| lines[i]@)
}

/// The character of a digit below sixteen.
fn digit_char(d: u8) -> (c: char)
    requires
        d < 16,
    ensures
        c == digit(d as nat),
{
    if d < 10 {
        (48 + d) as char
    } else {
        (87 + d) as char
    }
}

/// Appends `n` in decimal.
pub fn push_decimal(s: &mut String, n: u64)
    ensures
        final(s)@ == old(s)@ + decimal(n as nat),
    decreases n,
{
    if n >= 10 {
        push_decimal(s, n / 10);
    }
    s.push(digit_char((n % 10) as u8));
}

/// Appends the low `width` hexadecimal digits of `n`.
fn push_hex_digits(s: &mut String, n: u32, width: u8)
    ensures
        final(s)@ == old(s)@ + hex_digits(n as nat, width as nat),
    decreases width,
{
    if width > 0 {
        push_hex_digits(s, n / 16, width - 1);
        s.push(digit_char((n % 16) as u8));
    }
}

/// Appends `n` behind `0x`, as `width` hexadecimal digits.
pub fn push_hex(s: &mut String, n: u32, width: u8)
    ensures
        final(s)@ == old(s)@ + hex(n as nat, width as nat),
{
    s.append("0x");
    push_hex_digits(s, n, width);
}

/// Appends `n` copies of `c`.
pub fn push_fill(s: &mut String, c: char, n: usize)
    ensures
        final(s)@ == old(s)@ + fill(c, n as nat),
{
    let mut i: usize = 0;
    while i < n
        invariant
            i <= n,
            s@ == old(s)@ + fill(c, i as nat),
        decreases n - i,
    {
        s.push(c);
        i += 1;
    }
}

/// Appends `n` in decimal, behind as many `c` as it takes to reach `width`
/// characters.
pub fn push_decimal_padded(s: &mut String, n: u64, width: usize, c: char)
    ensures
        final(s)@ == old(s)@ + pad_left(decimal(n as nat), width as nat, c),
{
    let mut digits = String::new();
    push_decimal(&mut digits, n);
    push_left(s, digits.as_str(), width, c);
}

/// Appends `t` behind as many `c` as it takes to reach `width` characters.
pub fn push_left(s: &mut String, t: &str, width: usize, c: char)
    ensures
        final(s)@ == old(s)@ + pad_left(t@, width as nat, c),
{
    let len: usize = t.unicode_len();
    if len < width {
        push_fill(s, c, width - len);
    }
    s.append(t);
}

/// Appends `t` and as many spaces as it takes to reach `width` characters.
pub fn push_right(s: &mut String, t: &str, width: usize)
    ensures
        final(s)@ == old(s)@ + pad_right(t@, width as nat),
{
    let len: usize = t.unicode_len();
    s.append(t);
    if len < width {
        push_fill(s, ' ', width - len);
    }
}

/// The `Debug` formatting of `str`, which is a function of the string alone
/// and goes by `quoted` here.
#[verifier::external_body]
pub(crate) fn quote(s: &str) -> (r: String)
    ensures
        r@ == quoted(s@),
{
    format!("{s:?}")
}

/// The `Debug` formatting of `char`, which is a function of the character
/// alone and goes by `quoted_char` here.
#[verifier::external_body]
pub(crate) fn quote_char(c: char) -> (r: String)
    ensures
        r@ == quoted_char(c),
{
    format!("{c:?}")
}

/// The characters of a string.
pub fn chars(s: &str) -> (v: Vec<char>)
    ensures
        v@ == s@,
{
    let mut v: Vec<char> = Vec::new();
    for c in it: s.chars()
        invariant
            it.seq() == s@,
            v@ == s@.take(it.index() as int),
    {
        v.push(c);
        assert(v@ =~= s@.take(it.index() as int + 1));
    }
    assert(v@ =~= s@);
    v
}

/// The string of some characters.
pub fn from_chars(v: &[char]) -> (s: String)
    ensures
        s@ == v@,
{
    let mut s = String::new();
    let mut i: usize = 0;
    while i < v.len()
        invariant
            i <= v@.len(),
            s@ == v@.take(i as int),
        decreases v@.len() - i,
    {
        s.push(v[i]);
        i = i + 1;
        assert(s@ =~= v@.take(i as int));
    }
    assert(s@ =~= v@);
    s
}

/// Whether two strings are the same.
pub fn same(a: &str, b: &str) -> (r: bool)
    ensures
        r == (a@ == b@),
{
    String::from_str(a) == String::from_str(b)
}

// ------------------------------------------------------------------------- laws

/// What a decimal digit counts for.
pub open spec fn digit_value(c: char) -> int {
    c as int - '0' as int
}

/// Whether `s` is how the number `n` is written in decimal: digits that add up to
/// it by their places, and no zero before the first of them.
pub open spec fn spells(s: Seq<char>, n: nat) -> bool
    decreases s.len(),
{
    &&& s.len() > 0
    &&& '0' <= s.last() <= '9'
    &&& if s.len() == 1 {
        n == digit_value(s.last())
    } else {
        &&& n >= 10
        &&& n % 10 == digit_value(s.last())
        &&& spells(s.drop_last(), n / 10)
    }
}

/// A number is printed as it is written in decimal, and there is no other way to
/// write it: two numbers that are printed the same are the same.
pub proof fn lemma_decimal(n: nat, m: nat)
    ensures
        spells(decimal(n), n),
        decimal(n) == decimal(m) ==> n == m,
        forall|i: int| 0 <= i < decimal(n).len() ==> '0' <= #[trigger] decimal(n)[i] <= '9',
        decimal(n)[0] == '0' ==> n == 0,
    decreases n,
{
    if n >= 10 {
        let d = decimal(n / 10);
        lemma_decimal(n / 10, m / 10);
        assert(decimal(n).drop_last() =~= d);
        assert(decimal(n)[0] == d[0]);
        assert forall|i: int| 0 <= i < decimal(n).len() implies '0' <= #[trigger] decimal(n)[i]
            <= '9' by {
            if i < d.len() {
                assert(decimal(n)[i] == d[i]);
            }
        }
    }
    if decimal(n) == decimal(m) {
        assert(decimal(n).last() == decimal(m).last());
        if n >= 10 && m >= 10 {
            assert(decimal(m).drop_last() =~= decimal(m / 10));
        } else if n < 10 && m >= 10 {
            lemma_decimal_len(m / 10);
            assert(decimal(m).len() > 1);
        } else if n >= 10 && m < 10 {
            lemma_decimal_len(n / 10);
            assert(decimal(n).len() > 1);
        }
    }
}

/// How many digits a number has.
pub proof fn lemma_decimal_len(n: nat)
    ensures
        decimal(n).len() > 0,
        n < 10 <==> decimal(n).len() == 1,
        10 <= n < 100 ==> decimal(n).len() == 2,
        1_000 <= n < 10_000 ==> decimal(n).len() == 4,
        n < 100_000_000 ==> decimal(n).len() <= 8,
        n <= u32::MAX ==> decimal(n).len() <= 10,
    decreases n,
{
    reveal_with_fuel(decimal, 11);
    if n >= 10 {
        lemma_decimal_len(n / 10);
    }
}

/// A text that is aligned to the right of a column: as wide as the column, or as
/// itself where it does not fit, with nothing but the filler before it.
pub proof fn lemma_pad_left(s: Seq<char>, width: nat, c: char)
    ensures
        ({
            let p = pad_left(s, width, c);
            let w = p.len() - s.len();
            &&& p.len() == (if s.len() < width {
                width
            } else {
                s.len()
            })
            &&& p.skip(w) == s
            &&& forall|i: int| 0 <= i < w ==> #[trigger] p[i] == c
        }),
{
    let p = pad_left(s, width, c);
    assert(p.skip(p.len() - s.len()) =~= s);
}

/// A text that is aligned to the left of a column: as wide as the column, or as
/// itself where it does not fit, with nothing but spaces behind it.
pub proof fn lemma_pad_right(s: Seq<char>, width: nat)
    ensures
        ({
            let p = pad_right(s, width);
            &&& p.len() == (if s.len() < width {
                width
            } else {
                s.len()
            })
            &&& p.take(s.len() as int) == s
            &&& forall|i: int| s.len() <= i < p.len() ==> #[trigger] p[i] == ' '
        }),
{
    let p = pad_right(s, width);
    assert(p.take(s.len() as int) =~= s);
}

/// A hexadecimal number has its width in digits, each for four bits, the lowest
/// last.
pub proof fn lemma_hex_digits(n: nat, width: nat)
    ensures
        hex_digits(n, width).len() == width,
        width > 0 ==> hex_digits(n, width).drop_last() == hex_digits(n / 16, (width - 1) as nat),
        width > 0 ==> {
            let c = hex_digits(n, width).last();
            &&& n % 16 < 10 ==> '0' <= c <= '9' && c as int - '0' as int == n % 16
            &&& n % 16 >= 10 ==> 'a' <= c <= 'f' && c as int - 'a' as int == n % 16 - 10
        },
        hex(n, width).take(2) == "0x"@,
        hex(n, width).skip(2) == hex_digits(n, width),
    decreases width,
{
    reveal_strlit("0x");
    assert(hex(n, width).take(2) =~= "0x"@);
    assert(hex(n, width).skip(2) =~= hex_digits(n, width));
    if width > 0 {
        lemma_hex_digits(n / 16, (width - 1) as nat);
        assert(hex_digits(n, width).drop_last() =~= hex_digits(n / 16, (width - 1) as nat));
    }
}

} // verus!
