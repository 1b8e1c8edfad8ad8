//! MacRoman <-> UTF-8 conversion.
//!
//! MFS stores every name (volume names, file names) as a Pascal string of
//! MacRoman bytes. Bytes `0x00..=0x7F` are plain ASCII; `0x80..=0xFF` map to
//! the 128 characters in [`HIGH`], which is Apple's standard MacRoman table in
//! its modern revision (the one where `0xDB` is `€` rather than the currency
//! sign `¤` used before Mac OS 8.5).

use vstd::prelude::*;

verus! {

/// MacRoman characters for bytes `0x80..=0xFF`, indexed by `byte - 0x80`.
pub const HIGH: [char; 128] = [
    // 0x80
    '\u{00C4}', // Ä
    '\u{00C5}', // Å
    '\u{00C7}', // Ç
    '\u{00C9}', // É
    '\u{00D1}', // Ñ
    '\u{00D6}', // Ö
    '\u{00DC}', // Ü
    '\u{00E1}', // á
    '\u{00E0}', // à
    '\u{00E2}', // â
    '\u{00E4}', // ä
    '\u{00E3}', // ã
    '\u{00E5}', // å
    '\u{00E7}', // ç
    '\u{00E9}', // é
    '\u{00E8}', // è
    // 0x90
    '\u{00EA}', // ê
    '\u{00EB}', // ë
    '\u{00ED}', // í
    '\u{00EC}', // ì
    '\u{00EE}', // î
    '\u{00EF}', // ï
    '\u{00F1}', // ñ
    '\u{00F3}', // ó
    '\u{00F2}', // ò
    '\u{00F4}', // ô
    '\u{00F6}', // ö
    '\u{00F5}', // õ
    '\u{00FA}', // ú
    '\u{00F9}', // ù
    '\u{00FB}', // û
    '\u{00FC}', // ü
    // 0xA0
    '\u{2020}', // † dagger
    '\u{00B0}', // °
    '\u{00A2}', // ¢
    '\u{00A3}', // £
    '\u{00A7}', // §
    '\u{2022}', // • bullet
    '\u{00B6}', // ¶
    '\u{00DF}', // ß
    '\u{00AE}', // ®
    '\u{00A9}', // ©
    '\u{2122}', // ™
    '\u{00B4}', // ´ acute accent
    '\u{00A8}', // ¨ diaeresis
    '\u{2260}', // ≠
    '\u{00C6}', // Æ
    '\u{00D8}', // Ø
    // 0xB0
    '\u{221E}', // ∞
    '\u{00B1}', // ±
    '\u{2264}', // ≤
    '\u{2265}', // ≥
    '\u{00A5}', // ¥
    '\u{00B5}', // µ micro sign
    '\u{2202}', // ∂
    '\u{2211}', // ∑ n-ary summation
    '\u{220F}', // ∏ n-ary product
    '\u{03C0}', // π greek small letter pi
    '\u{222B}', // ∫
    '\u{00AA}', // ª
    '\u{00BA}', // º
    '\u{03A9}', // Ω greek capital omega (ohm sign)
    '\u{00E6}', // æ
    '\u{00F8}', // ø
    // 0xC0
    '\u{00BF}', // ¿
    '\u{00A1}', // ¡
    '\u{00AC}', // ¬
    '\u{221A}', // √
    '\u{0192}', // ƒ latin small letter f with hook
    '\u{2248}', // ≈
    '\u{2206}', // ∆ increment
    '\u{00AB}', // «
    '\u{00BB}', // »
    '\u{2026}', // … horizontal ellipsis
    '\u{00A0}', // no-break space
    '\u{00C0}', // À
    '\u{00C3}', // Ã
    '\u{00D5}', // Õ
    '\u{0152}', // Œ
    '\u{0153}', // œ
    // 0xD0
    '\u{2013}', // – en dash
    '\u{2014}', // — em dash
    '\u{201C}', // “
    '\u{201D}', // ”
    '\u{2018}', // ‘
    '\u{2019}', // ’
    '\u{00F7}', // ÷
    '\u{25CA}', // ◊ lozenge
    '\u{00FF}', // ÿ
    '\u{0178}', // Ÿ
    '\u{2044}', // ⁄ fraction slash
    '\u{20AC}', // € euro sign (was ¤ before Mac OS 8.5)
    '\u{2039}', // ‹
    '\u{203A}', // ›
    '\u{FB01}', // ﬁ ligature
    '\u{FB02}', // ﬂ ligature
    // 0xE0
    '\u{2021}', // ‡ double dagger
    '\u{00B7}', // · middle dot
    '\u{201A}', // ‚
    '\u{201E}', // „
    '\u{2030}', // ‰ per mille
    '\u{00C2}', // Â
    '\u{00CA}', // Ê
    '\u{00C1}', // Á
    '\u{00CB}', // Ë
    '\u{00C8}', // È
    '\u{00CD}', // Í
    '\u{00CE}', // Î
    '\u{00CF}', // Ï
    '\u{00CC}', // Ì
    '\u{00D3}', // Ó
    '\u{00D4}', // Ô
    // 0xF0
    '\u{F8FF}', // Apple logo (private use)
    '\u{00D2}', // Ò
    '\u{00DA}', // Ú
    '\u{00DB}', // Û
    '\u{00D9}', // Ù
    '\u{0131}', // ı dotless i
    '\u{02C6}', // ˆ modifier circumflex
    '\u{02DC}', // ˜ small tilde
    '\u{00AF}', // ¯ macron
    '\u{02D8}', // ˘ breve
    '\u{02D9}', // ˙ dot above
    '\u{02DA}', // ˚ ring above
    '\u{00B8}', // ¸ cedilla
    '\u{02DD}', // ˝ double acute
    '\u{02DB}', // ˛ ogonek
    '\u{02C7}', // ˇ caron
];

/// The character of a MacRoman byte.
pub open spec fn char_of(b: u8) -> char {
    if b < 0x80 {
        b as char
    } else {
        HIGH@[b - 0x80]
    }
}

/// The characters of a MacRoman string.
pub open spec fn decoded(bytes: Seq<u8>) -> Seq<char> {
    Seq::new(bytes.len(), |i: int| char_of(bytes[i]))
}

/// Whether a character has a MacRoman byte.
pub open spec fn mappable(c: char) -> bool {
    exists|b: u8| #[trigger] char_of(b) == c
}

/// The MacRoman byte of a character that has one.
pub open spec fn byte_of(c: char) -> u8 {
    choose|b: u8| #[trigger] char_of(b) == c
}

/// The MacRoman bytes of `s`, or its first character that has none.
pub open spec fn encoded(s: Seq<char>) -> core::result::Result<Seq<u8>, char>
    decreases s.len(),
{
    if s.len() == 0 {
        Ok(Seq::empty())
    } else if !mappable(s[0]) {
        Err(s[0])
    } else {
        match encoded(s.skip(1)) {
            Ok(t) => Ok(seq![byte_of(s[0])] + t),
            Err(c) => Err(c),
        }
    }
}

/// The place in [`HIGH`] of a character that stands there.
spec fn place(c: char) -> int {
    let n = c as int;
    if n == 0xC4 {
        0
    } else if n == 0xC5 {
        1
    } else if n == 0xC7 {
        2
    } else if n == 0xC9 {
        3
    } else if n == 0xD1 {
        4
    } else if n == 0xD6 {
        5
    } else if n == 0xDC {
        6
    } else if n == 0xE1 {
        7
    } else if n == 0xE0 {
        8
    } else if n == 0xE2 {
        9
    } else if n == 0xE4 {
        10
    } else if n == 0xE3 {
        11
    } else if n == 0xE5 {
        12
    } else if n == 0xE7 {
        13
    } else if n == 0xE9 {
        14
    } else if n == 0xE8 {
        15
    } else if n == 0xEA {
        16
    } else if n == 0xEB {
        17
    } else if n == 0xED {
        18
    } else if n == 0xEC {
        19
    } else if n == 0xEE {
        20
    } else if n == 0xEF {
        21
    } else if n == 0xF1 {
        22
    } else if n == 0xF3 {
        23
    } else if n == 0xF2 {
        24
    } else if n == 0xF4 {
        25
    } else if n == 0xF6 {
        26
    } else if n == 0xF5 {
        27
    } else if n == 0xFA {
        28
    } else if n == 0xF9 {
        29
    } else if n == 0xFB {
        30
    } else if n == 0xFC {
        31
    } else if n == 0x2020 {
        32
    } else if n == 0xB0 {
        33
    } else if n == 0xA2 {
        34
    } else if n == 0xA3 {
        35
    } else if n == 0xA7 {
        36
    } else if n == 0x2022 {
        37
    } else if n == 0xB6 {
        38
    } else if n == 0xDF {
        39
    } else if n == 0xAE {
        40
    } else if n == 0xA9 {
        41
    } else if n == 0x2122 {
        42
    } else if n == 0xB4 {
        43
    } else if n == 0xA8 {
        44
    } else if n == 0x2260 {
        45
    } else if n == 0xC6 {
        46
    } else if n == 0xD8 {
        47
    } else if n == 0x221E {
        48
    } else if n == 0xB1 {
        49
    } else if n == 0x2264 {
        50
    } else if n == 0x2265 {
        51
    } else if n == 0xA5 {
        52
    } else if n == 0xB5 {
        53
    } else if n == 0x2202 {
        54
    } else if n == 0x2211 {
        55
    } else if n == 0x220F {
        56
    } else if n == 0x3C0 {
        57
    } else if n == 0x222B {
        58
    } else if n == 0xAA {
        59
    } else if n == 0xBA {
        60
    } else if n == 0x3A9 {
        61
    } else if n == 0xE6 {
        62
    } else if n == 0xF8 {
        63
    } else if n == 0xBF {
        64
    } else if n == 0xA1 {
        65
    } else if n == 0xAC {
        66
    } else if n == 0x221A {
        67
    } else if n == 0x192 {
        68
    } else if n == 0x2248 {
        69
    } else if n == 0x2206 {
        70
    } else if n == 0xAB {
        71
    } else if n == 0xBB {
        72
    } else if n == 0x2026 {
        73
    } else if n == 0xA0 {
        74
    } else if n == 0xC0 {
        75
    } else if n == 0xC3 {
        76
    } else if n == 0xD5 {
        77
    } else if n == 0x152 {
        78
    } else if n == 0x153 {
        79
    } else if n == 0x2013 {
        80
    } else if n == 0x2014 {
        81
    } else if n == 0x201C {
        82
    } else if n == 0x201D {
        83
    } else if n == 0x2018 {
        84
    } else if n == 0x2019 {
        85
    } else if n == 0xF7 {
        86
    } else if n == 0x25CA {
        87
    } else if n == 0xFF {
        88
    } else if n == 0x178 {
        89
    } else if n == 0x2044 {
        90
    } else if n == 0x20AC {
        91
    } else if n == 0x2039 {
        92
    } else if n == 0x203A {
        93
    } else if n == 0xFB01 {
        94
    } else if n == 0xFB02 {
        95
    } else if n == 0x2021 {
        96
    } else if n == 0xB7 {
        97
    } else if n == 0x201A {
        98
    } else if n == 0x201E {
        99
    } else if n == 0x2030 {
        100
    } else if n == 0xC2 {
        101
    } else if n == 0xCA {
        102
    } else if n == 0xC1 {
        103
    } else if n == 0xCB {
        104
    } else if n == 0xC8 {
        105
    } else if n == 0xCD {
        106
    } else if n == 0xCE {
        107
    } else if n == 0xCF {
        108
    } else if n == 0xCC {
        109
    } else if n == 0xD3 {
        110
    } else if n == 0xD4 {
        111
    } else if n == 0xF8FF {
        112
    } else if n == 0xD2 {
        113
    } else if n == 0xDA {
        114
    } else if n == 0xDB {
        115
    } else if n == 0xD9 {
        116
    } else if n == 0x131 {
        117
    } else if n == 0x2C6 {
        118
    } else if n == 0x2DC {
        119
    } else if n == 0xAF {
        120
    } else if n == 0x2D8 {
        121
    } else if n == 0x2D9 {
        122
    } else if n == 0x2DA {
        123
    } else if n == 0xB8 {
        124
    } else if n == 0x2DD {
        125
    } else if n == 0x2DB {
        126
    } else if n == 0x2C7 {
        127
    } else {
        -1
    }
}

/// Every character of [`HIGH`] stands where [`place`] says.
proof fn lemma_places(i: int)
    requires
        0 <= i < 128,
    ensures
        place(HIGH@[i]) == i,
        HIGH@[i] as int >= 0x80,
{
    assert(HIGH@[0] as int == 0xC4);
    assert(HIGH@[1] as int == 0xC5);
    assert(HIGH@[2] as int == 0xC7);
    assert(HIGH@[3] as int == 0xC9);
    assert(HIGH@[4] as int == 0xD1);
    assert(HIGH@[5] as int == 0xD6);
    assert(HIGH@[6] as int == 0xDC);
    assert(HIGH@[7] as int == 0xE1);
    assert(HIGH@[8] as int == 0xE0);
    assert(HIGH@[9] as int == 0xE2);
    assert(HIGH@[10] as int == 0xE4);
    assert(HIGH@[11] as int == 0xE3);
    assert(HIGH@[12] as int == 0xE5);
    assert(HIGH@[13] as int == 0xE7);
    assert(HIGH@[14] as int == 0xE9);
    assert(HIGH@[15] as int == 0xE8);
    assert(HIGH@[16] as int == 0xEA);
    assert(HIGH@[17] as int == 0xEB);
    assert(HIGH@[18] as int == 0xED);
    assert(HIGH@[19] as int == 0xEC);
    assert(HIGH@[20] as int == 0xEE);
    assert(HIGH@[21] as int == 0xEF);
    assert(HIGH@[22] as int == 0xF1);
    assert(HIGH@[23] as int == 0xF3);
    assert(HIGH@[24] as int == 0xF2);
    assert(HIGH@[25] as int == 0xF4);
    assert(HIGH@[26] as int == 0xF6);
    assert(HIGH@[27] as int == 0xF5);
    assert(HIGH@[28] as int == 0xFA);
    assert(HIGH@[29] as int == 0xF9);
    assert(HIGH@[30] as int == 0xFB);
    assert(HIGH@[31] as int == 0xFC);
    assert(HIGH@[32] as int == 0x2020);
    assert(HIGH@[33] as int == 0xB0);
    assert(HIGH@[34] as int == 0xA2);
    assert(HIGH@[35] as int == 0xA3);
    assert(HIGH@[36] as int == 0xA7);
    assert(HIGH@[37] as int == 0x2022);
    assert(HIGH@[38] as int == 0xB6);
    assert(HIGH@[39] as int == 0xDF);
    assert(HIGH@[40] as int == 0xAE);
    assert(HIGH@[41] as int == 0xA9);
    assert(HIGH@[42] as int == 0x2122);
    assert(HIGH@[43] as int == 0xB4);
    assert(HIGH@[44] as int == 0xA8);
    assert(HIGH@[45] as int == 0x2260);
    assert(HIGH@[46] as int == 0xC6);
    assert(HIGH@[47] as int == 0xD8);
    assert(HIGH@[48] as int == 0x221E);
    assert(HIGH@[49] as int == 0xB1);
    assert(HIGH@[50] as int == 0x2264);
    assert(HIGH@[51] as int == 0x2265);
    assert(HIGH@[52] as int == 0xA5);
    assert(HIGH@[53] as int == 0xB5);
    assert(HIGH@[54] as int == 0x2202);
    assert(HIGH@[55] as int == 0x2211);
    assert(HIGH@[56] as int == 0x220F);
    assert(HIGH@[57] as int == 0x3C0);
    assert(HIGH@[58] as int == 0x222B);
    assert(HIGH@[59] as int == 0xAA);
    assert(HIGH@[60] as int == 0xBA);
    assert(HIGH@[61] as int == 0x3A9);
    assert(HIGH@[62] as int == 0xE6);
    assert(HIGH@[63] as int == 0xF8);
    assert(HIGH@[64] as int == 0xBF);
    assert(HIGH@[65] as int == 0xA1);
    assert(HIGH@[66] as int == 0xAC);
    assert(HIGH@[67] as int == 0x221A);
    assert(HIGH@[68] as int == 0x192);
    assert(HIGH@[69] as int == 0x2248);
    assert(HIGH@[70] as int == 0x2206);
    assert(HIGH@[71] as int == 0xAB);
    assert(HIGH@[72] as int == 0xBB);
    assert(HIGH@[73] as int == 0x2026);
    assert(HIGH@[74] as int == 0xA0);
    assert(HIGH@[75] as int == 0xC0);
    assert(HIGH@[76] as int == 0xC3);
    assert(HIGH@[77] as int == 0xD5);
    assert(HIGH@[78] as int == 0x152);
    assert(HIGH@[79] as int == 0x153);
    assert(HIGH@[80] as int == 0x2013);
    assert(HIGH@[81] as int == 0x2014);
    assert(HIGH@[82] as int == 0x201C);
    assert(HIGH@[83] as int == 0x201D);
    assert(HIGH@[84] as int == 0x2018);
    assert(HIGH@[85] as int == 0x2019);
    assert(HIGH@[86] as int == 0xF7);
    assert(HIGH@[87] as int == 0x25CA);
    assert(HIGH@[88] as int == 0xFF);
    assert(HIGH@[89] as int == 0x178);
    assert(HIGH@[90] as int == 0x2044);
    assert(HIGH@[91] as int == 0x20AC);
    assert(HIGH@[92] as int == 0x2039);
    assert(HIGH@[93] as int == 0x203A);
    assert(HIGH@[94] as int == 0xFB01);
    assert(HIGH@[95] as int == 0xFB02);
    assert(HIGH@[96] as int == 0x2021);
    assert(HIGH@[97] as int == 0xB7);
    assert(HIGH@[98] as int == 0x201A);
    assert(HIGH@[99] as int == 0x201E);
    assert(HIGH@[100] as int == 0x2030);
    assert(HIGH@[101] as int == 0xC2);
    assert(HIGH@[102] as int == 0xCA);
    assert(HIGH@[103] as int == 0xC1);
    assert(HIGH@[104] as int == 0xCB);
    assert(HIGH@[105] as int == 0xC8);
    assert(HIGH@[106] as int == 0xCD);
    assert(HIGH@[107] as int == 0xCE);
    assert(HIGH@[108] as int == 0xCF);
    assert(HIGH@[109] as int == 0xCC);
    assert(HIGH@[110] as int == 0xD3);
    assert(HIGH@[111] as int == 0xD4);
    assert(HIGH@[112] as int == 0xF8FF);
    assert(HIGH@[113] as int == 0xD2);
    assert(HIGH@[114] as int == 0xDA);
    assert(HIGH@[115] as int == 0xDB);
    assert(HIGH@[116] as int == 0xD9);
    assert(HIGH@[117] as int == 0x131);
    assert(HIGH@[118] as int == 0x2C6);
    assert(HIGH@[119] as int == 0x2DC);
    assert(HIGH@[120] as int == 0xAF);
    assert(HIGH@[121] as int == 0x2D8);
    assert(HIGH@[122] as int == 0x2D9);
    assert(HIGH@[123] as int == 0x2DA);
    assert(HIGH@[124] as int == 0xB8);
    assert(HIGH@[125] as int == 0x2DD);
    assert(HIGH@[126] as int == 0x2DB);
    assert(HIGH@[127] as int == 0x2C7);
}

/// Different bytes have different characters.
pub proof fn lemma_table_is_a_bijection(a: u8, b: u8)
    ensures
        char_of(a) == char_of(b) <==> a == b,
{
    if a >= 0x80 {
        lemma_places(a - 0x80);
    }
    if b >= 0x80 {
        lemma_places(b - 0x80);
    }
}

/// The byte of a byte's character is that byte.
proof fn lemma_byte_of(b: u8)
    ensures
        mappable(char_of(b)),
        byte_of(char_of(b)) == b,
{
    lemma_table_is_a_bijection(byte_of(char_of(b)), b);
}

/// Encoding what was decoded gives the bytes back: every byte string survives.
pub proof fn lemma_encode_inverts_decode(bytes: Seq<u8>)
    ensures
        encoded(decoded(bytes)) == Ok::<Seq<u8>, char>(bytes),
    decreases bytes.len(),
{
    let s = decoded(bytes);
    if bytes.len() == 0 {
        assert(bytes =~= Seq::empty());
    } else {
        lemma_byte_of(bytes[0]);
        assert(s.skip(1) =~= decoded(bytes.skip(1)));
        lemma_encode_inverts_decode(bytes.skip(1));
        assert(seq![bytes[0]] + bytes.skip(1) =~= bytes);
    }
}

/// Decoding what was encoded gives the characters back.
pub proof fn lemma_decode_inverts_encode(s: Seq<char>)
    ensures
        encoded(s) matches Ok(bytes) ==> decoded(bytes) == s,
    decreases s.len(),
{
    if s.len() > 0 && mappable(s[0]) {
        lemma_decode_inverts_encode(s.skip(1));
        if let Ok(t) = encoded(s.skip(1)) {
            let bytes = seq![byte_of(s[0])] + t;
            assert(decoded(bytes) =~= seq![s[0]] + decoded(t));
            assert(seq![s[0]] + s.skip(1) =~= s);
        }
    } else if s.len() == 0 {
        assert(decoded(Seq::empty()) =~= s);
    }
}

/// A string is encoded if and only if each of its characters has a byte, and
/// the complaint is about the first one that has none.
pub proof fn lemma_encodable(s: Seq<char>)
    ensures
        match encoded(s) {
            Ok(bytes) => {
                &&& forall|i: int| 0 <= i < s.len() ==> mappable(#[trigger] s[i])
                &&& bytes.len() == s.len()
            },
            Err(c) => exists|k: int|
                {
                    &&& 0 <= k < s.len()
                    &&& #[trigger] s[k] == c
                    &&& !mappable(c)
                    &&& forall|i: int| 0 <= i < k ==> mappable(#[trigger] s[i])
                },
        },
    decreases s.len(),
{
    if s.len() > 0 {
        let t = s.skip(1);
        lemma_encodable(t);
        if !mappable(s[0]) {
            assert(s[0] == encoded(s)->Err_0);
        } else {
            match encoded(t) {
                Ok(bytes) => {
                    assert forall|i: int| 0 <= i < s.len() implies mappable(#[trigger] s[i]) by {
                        if i > 0 {
                            assert(s[i] == t[i - 1]);
                        }
                    }
                },
                Err(c) => {
                    let k = choose|k: int|
                        {
                            &&& 0 <= k < t.len()
                            &&& #[trigger] t[k] == c
                            &&& !mappable(c)
                            &&& forall|i: int| 0 <= i < k ==> mappable(#[trigger] t[i])
                        };
                    assert(s[k + 1] == c);
                    assert forall|i: int| 0 <= i < k + 1 implies mappable(#[trigger] s[i]) by {
                        if i > 0 {
                            assert(s[i] == t[i - 1]);
                        }
                    }
                },
            }
        }
    }
}

/// Decode MacRoman bytes into a `String`. Cannot fail: every one of the 256
/// byte values has a Unicode counterpart.
pub fn decode(bytes: &[u8]) -> (s: String)
    ensures
        s@ == decoded(bytes@),
{
    let n: usize = bytes.len();
    let mut s = String::new();
    let mut i: usize = 0;
    while i < n
        invariant
            i <= n,
            n == bytes@.len(),
            s@ == decoded(bytes@.take(i as int)),
        decreases n - i,
    {
        let b: u8 = bytes[i];
        let c: char = if b < 0x80 {
            b as char
        } else {
            HIGH[(b - 0x80) as usize]
        };
        s.push(c);
        i += 1;
        assert(s@ =~= decoded(bytes@.take(i as int)));
    }
    assert(bytes@.take(n as int) =~= bytes@);
    s
}

/// The MacRoman byte of `c`, if it has one.
fn encode_char(c: char) -> (r: Option<u8>)
    ensures
        match r {
            Some(b) => mappable(c) && b == byte_of(c),
            None => !mappable(c),
        },
{
    let n: u32 = c as u32;
    if n < 0x80 {
        proof {
            assert(char_of(n as u8) == c);
            lemma_byte_of(n as u8);
        }
        return Some(n as u8);
    }
    let mut i: usize = 0;
    while i < 128
        invariant
            i <= 128,
            n == c as u32,
            n >= 0x80,
            forall|j: int| 0 <= j < i ==> #[trigger] HIGH@[j] != c,
        decreases 128 - i,
    {
        if HIGH[i] == c {
            proof {
                let b = (0x80 + i) as u8;
                assert(char_of(b) == c);
                lemma_byte_of(b);
            }
            return Some(0x80 + i as u8);
        }
        i += 1;
    }
    proof {
        assert forall|b: u8| #[trigger] char_of(b) != c by {
            if b >= 0x80 {
                assert(HIGH@[b - 0x80] != c);
            }
        }
    }
    None
}

/// `head` followed by what is left to encode, unless that failed.
spec fn encoded_then(
    head: Seq<u8>,
    rest: core::result::Result<Seq<u8>, char>,
) -> core::result::Result<Seq<u8>, char> {
    match rest {
        Ok(t) => Ok(head + t),
        Err(c) => Err(c),
    }
}

/// Encode a `str` as MacRoman bytes.
///
/// Returns `Err(c)` with the first character that has no MacRoman
/// representation.
pub fn encode(s: &str) -> (r: core::result::Result<Vec<u8>, char>)
    ensures
        match r {
            Ok(bytes) => encoded(s@) == Ok::<Seq<u8>, char>(bytes@),
            Err(c) => encoded(s@) == Err::<Seq<u8>, char>(c),
        },
{
    let mut out: Vec<u8> = Vec::new();
    proof {
        assert(s@.skip(0) =~= s@);
        if let Ok(t) = encoded(s@) {
            assert(Seq::<u8>::empty() + t =~= t);
        }
    }
    for c in it: s.chars()
        invariant
            it.seq() == s@,
            encoded(s@) == encoded_then(out@, encoded(s@.skip(it.index() as int))),
    {
        let ghost rest = s@.skip(it.index() as int);
        assert(rest[0] == c);
        assert(rest.skip(1) =~= s@.skip(it.index() as int + 1));
        match encode_char(c) {
            Some(b) => {
                let ghost before = out@;
                out.push(b);
                proof {
                    assert(before + seq![b] =~= out@);
                    if let Ok(t) = encoded(rest.skip(1)) {
                        assert(before + (seq![b] + t) =~= out@ + t);
                    }
                }
            },
            None => {
                return Err(c);
            },
        }
    }
    assert(out@ + Seq::<u8>::empty() =~= out@);
    Ok(out)
}

/// The uppercase equivalent of a string, as `str::to_uppercase` gives it.
pub uninterp spec fn uppercase(s: Seq<char>) -> Seq<char>;

/// Whether every character is ASCII.
pub open spec fn all_ascii(s: Seq<char>) -> bool {
    forall|i: int| 0 <= i < s.len() ==> (#[trigger] s[i] as int) < 0x80
}

/// An ASCII string with `a` to `z` replaced by `A` to `Z`.
pub open spec fn ascii_uppercase(s: Seq<char>) -> Seq<char> {
    Seq::new(
        s.len(),
        |i: int|
            if 97 <= s[i] as int <= 122 {
                (s[i] as int - 32) as char
            } else {
                s[i]
            },
    )
}

/// `str::to_uppercase` is a function of the string alone, which goes by
/// `uppercase` here; of an ASCII string it replaces the letters `a` to `z` by
/// `A` to `Z` and nothing else.
pub assume_specification[ str::to_uppercase ](s: &str) -> (r: String)
    ensures
        r@ == uppercase(s@),
        all_ascii(s@) ==> r@ == ascii_uppercase(s@),
;

/// Whether two strings are the same but for case.
pub open spec fn same_name(a: Seq<char>, b: Seq<char>) -> bool {
    uppercase(a) == uppercase(b)
}

/// Case-insensitive comparison of two already-decoded MacRoman strings.
///
/// MFS name lookup is case-insensitive the way the classic Mac Toolbox's
/// `_RelString` was. This is an approximation: we fold both sides with Unicode
/// `to_uppercase()` instead of replaying the ROM's MacRoman uppercase table.
/// The two agree on ASCII and on all the accented Latin letters that appear in
/// practice; they can differ for exotic case pairs (e.g. `ß`/`SS`, or
/// characters whose Unicode uppercase expands to multiple code points, which
/// `_RelString` leaves alone).
pub fn eq_ignore_case(a: &str, b: &str) -> (same: bool)
    ensures
        same == same_name(a@, b@),
        all_ascii(a@) && all_ascii(b@) ==> same == (ascii_uppercase(a@) == ascii_uppercase(b@)),
{
    let x = a.to_uppercase();
    let y = b.to_uppercase();
    x == y
}

/// An ASCII byte is the character of that number, an ASCII character the byte of
/// that number, and no other byte is an ASCII character.
pub proof fn lemma_ascii(b: u8, c: char)
    ensures
        b < 0x80 <==> (char_of(b) as int) < 0x80,
        b < 0x80 ==> char_of(b) as int == b,
        (c as int) < 0x80 ==> mappable(c) && byte_of(c) == c as int,
{
    if b >= 0x80 {
        lemma_places(b - 0x80);
    }
    if (c as int) < 0x80 {
        let a = c as u8;
        assert(char_of(a) == c);
        lemma_byte_of(a);
    }
}

/// Names that are the same but for case are so in either order, and a name that
/// is the same as two others makes those the same.
pub proof fn lemma_same_name(a: Seq<char>, b: Seq<char>, c: Seq<char>)
    ensures
        same_name(a, a),
        same_name(a, b) <==> same_name(b, a),
        same_name(a, b) && same_name(a, c) ==> same_name(b, c),
{
}

} // verus!
