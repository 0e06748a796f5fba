//! Lowercase hexadecimal rendering of byte strings, and its inverse.

use vstd::prelude::*;
use vstd::string::*;
use vstd::utf8::*;

verus! {

/// The lowercase hexadecimal digit that stands for `n`, for `n < 16`.
pub open spec fn hex_digit(n: int) -> char {
    if n == 0 {
        '0'
    } else if n == 1 {
        '1'
    } else if n == 2 {
        '2'
    } else if n == 3 {
        '3'
    } else if n == 4 {
        '4'
    } else if n == 5 {
        '5'
    } else if n == 6 {
        '6'
    } else if n == 7 {
        '7'
    } else if n == 8 {
        '8'
    } else if n == 9 {
        '9'
    } else if n == 10 {
        'a'
    } else if n == 11 {
        'b'
    } else if n == 12 {
        'c'
    } else if n == 13 {
        'd'
    } else if n == 14 {
        'e'
    } else {
        'f'
    }
}

/// Whether `c` is one of `0`..`9` or `a`..`f`.
pub open spec fn is_lower_hex_char(c: char) -> bool {
    ('0' <= c && c <= '9') || ('a' <= c && c <= 'f')
}

/// Whether `c` is a hexadecimal digit, in either case.
pub open spec fn is_hex_char(c: char) -> bool {
    is_lower_hex_char(c) || ('A' <= c && c <= 'F')
}

/// The value of the hexadecimal digit `c`.
pub open spec fn hex_value(c: char) -> int {
    if '0' <= c && c <= '9' {
        c as int - '0' as int
    } else if 'a' <= c && c <= 'f' {
        c as int - 'a' as int + 10
    } else {
        c as int - 'A' as int + 10
    }
}

/// Whether every character of `s` is a lowercase hexadecimal digit.
pub open spec fn is_lower_hex(s: Seq<char>) -> bool {
    forall|i: int| 0 <= i < s.len() ==> is_lower_hex_char(#[trigger] s[i])
}

/// Whether every character of `s` is a hexadecimal digit, in either case.
pub open spec fn is_hex(s: Seq<char>) -> bool {
    forall|i: int| 0 <= i < s.len() ==> is_hex_char(#[trigger] s[i])
}

/// The value of the digit at position `i` of `s`, and zero past the end of `s`.
pub open spec fn nibble_at(s: Seq<char>, i: int) -> int {
    if i < s.len() {
        hex_value(s[i])
    } else {
        0
    }
}

/// The text of `bytes`: two digits for each byte, the high one first.
pub open spec fn encode(bytes: Seq<u8>) -> Seq<char> {
    Seq::new(
        2 * bytes.len(),
        |i: int|
            if i % 2 == 0 {
                hex_digit(bytes[i / 2] as int / 16)
            } else {
                hex_digit(bytes[i / 2] as int % 16)
            },
    )
}

/// The `n` bytes that the digits of `s` spell, two digits to a byte, where digits that `s` is too
/// short to hold count as zero.
pub open spec fn decode(s: Seq<char>, n: nat) -> Seq<u8> {
    Seq::new(n, |k: int| (16 * nibble_at(s, 2 * k) + nibble_at(s, 2 * k + 1)) as u8)
}

/// Decoding the text of `bytes` gives `bytes` back.
pub proof fn lemma_decode_encode(bytes: Seq<u8>)
    ensures
        encode(bytes).len() == 2 * bytes.len(),
        is_lower_hex(encode(bytes)),
        decode(encode(bytes), bytes.len()) == bytes,
{
    let text = encode(bytes);
    assert forall|i: int| 0 <= i < text.len() implies is_lower_hex_char(#[trigger] text[i]) by {
        let b: int = bytes[i / 2] as int;
        assert(0 <= b / 16 < 16);
        assert(0 <= b % 16 < 16);
    }
    assert forall|k: int| 0 <= k < bytes.len() implies decode(text, bytes.len())[k] == bytes[k] by {
        let b: int = bytes[k] as int;
        assert((2 * k) / 2 == k && (2 * k) % 2 == 0);
        assert((2 * k + 1) / 2 == k && (2 * k + 1) % 2 == 1);
        assert(text[2 * k] == hex_digit(b / 16));
        assert(text[2 * k + 1] == hex_digit(b % 16));
        assert(0 <= b / 16 < 16);
        assert(0 <= b % 16 < 16);
        assert(hex_value(hex_digit(b / 16)) == b / 16);
        assert(hex_value(hex_digit(b % 16)) == b % 16);
        assert(16 * (b / 16) + b % 16 == b);
    }
    assert(decode(text, bytes.len()) =~= bytes);
}

/// Byte strings of one length with one text are equal.
pub proof fn lemma_encode_injective(a: Seq<u8>, b: Seq<u8>)
    requires
        a.len() == b.len(),
        encode(a) == encode(b),
    ensures
        a == b,
{
    lemma_decode_encode(a);
    lemma_decode_encode(b);
}

/// The one-character text of the digit that stands for `n`.
pub(crate) fn digit_text(n: u8) -> (text: &'static str)
    requires
        n < 16,
    ensures
        text@ == seq![hex_digit(n as int)],
{
    proof {
        reveal_strlit("0");
        reveal_strlit("1");
        reveal_strlit("2");
        reveal_strlit("3");
        reveal_strlit("4");
        reveal_strlit("5");
        reveal_strlit("6");
        reveal_strlit("7");
        reveal_strlit("8");
        reveal_strlit("9");
        reveal_strlit("a");
        reveal_strlit("b");
        reveal_strlit("c");
        reveal_strlit("d");
        reveal_strlit("e");
        reveal_strlit("f");
    }
    let text = match n {
        0 => "0",
        1 => "1",
        2 => "2",
        3 => "3",
        4 => "4",
        5 => "5",
        6 => "6",
        7 => "7",
        8 => "8",
        9 => "9",
        10 => "a",
        11 => "b",
        12 => "c",
        13 => "d",
        14 => "e",
        _ => "f",
    };
    assert(text@ =~= seq![hex_digit(n as int)]);
    text
}

/// Renders twenty bytes as forty lowercase hexadecimal digits.
pub fn to_hex(bytes: &[u8; 20]) -> (text: String)
    ensures
        text@ == encode(bytes@),
{
    let mut text = String::new();
    let mut i: usize = 0;
    while i < 20
        invariant
            i <= 20,
            text@ == encode(bytes@.take(i as int)),
        decreases 20 - i,
    {
        let b: u8 = bytes[i];
        let ghost before = text@;
        text.append(digit_text(b / 16));
        text.append(digit_text(b % 16));
        proof {
            let shorter: Seq<u8> = bytes@.take(i as int);
            let longer: Seq<u8> = bytes@.take(i as int + 1);
            assert(longer =~= shorter.push(b));
            assert(text@ =~= encode(longer)) by {
                assert(text@.len() == 2 * i + 2);
                assert forall|j: int| 0 <= j < text@.len() implies text@[j] == encode(
                    longer,
                )[j] by {
                    if j < 2 * i {
                        assert(text@[j] == before[j]);
                        assert(shorter[j / 2] == longer[j / 2]);
                    } else if j == 2 * i {
                        assert(j / 2 == i && j % 2 == 0);
                    } else {
                        assert(j == 2 * i + 1);
                        assert(j / 2 == i && j % 2 == 1);
                    }
                }
            }
        }
        i += 1;
    }
    assert(bytes@.take(20) =~= bytes@);
    text
}

/// Reads up to forty lowercase hexadecimal digits as twenty bytes, a text of fewer digits as if
/// zeros followed it. Gives `None` for any other text.
pub fn from_hex(text: &str) -> (bytes: Option<[u8; 20]>)
    ensures
        bytes is Some <==> text@.len() <= 40 && is_lower_hex(text@),
        bytes matches Some(b) ==> b@ == decode(text@, 20),
{
    if !text.is_ascii() {
        proof {
            if is_lower_hex(text@) {
                assert(is_ascii_chars(text@));
            }
        }
        return None;
    }
    let raw = text.as_bytes();
    proof {
        is_ascii_chars_encode_utf8(text@);
    }
    if raw.len() > 40 {
        return None;
    }
    let mut out: [u8; 20] = [0u8; 20];
    let mut i: usize = 0;
    while i < raw.len()
        invariant
            i <= raw.len() <= 40,
            raw@.len() == text@.len(),
            forall|j: int| 0 <= j < raw@.len() ==> text@[j] as u8 == #[trigger] raw@[j],
            is_ascii_chars(text@),
            is_lower_hex(text@.take(i as int)),
            out@ == decode(text@.take(i as int), 20),
        decreases raw.len() - i,
    {
        let c: u8 = raw[i];
        let ghost ch: char = text@[i as int];
        assert(ch as u8 == c);
        assert('\0' <= ch <= '\u{7f}');
        let v: u8 = if 48 <= c && c <= 57 {
            c - 48
        } else if 97 <= c && c <= 102 {
            c - 87
        } else {
            proof {
                assert(!is_lower_hex_char(ch));
                assert(!is_lower_hex(text@));
            }
            return None;
        };
        assert(is_lower_hex_char(ch) && v == hex_value(ch));
        let k: usize = i / 2;
        let ghost shorter: Seq<char> = text@.take(i as int);
        let ghost longer: Seq<char> = text@.take(i as int + 1);
        assert(longer =~= shorter.push(ch));
        if i % 2 == 0 {
            assert(out@[k as int] == 0) by {
                assert(nibble_at(shorter, 2 * k) == 0);
                assert(nibble_at(shorter, 2 * k + 1) == 0);
            }
            out[k] = v * 16;
        } else {
            assert(out@[k as int] == 16 * hex_value(shorter[2 * k])) by {
                assert(i == 2 * k + 1);
                assert(nibble_at(shorter, 2 * k) == hex_value(shorter[2 * k]));
                assert(nibble_at(shorter, 2 * k + 1) == 0);
            }
            out[k] = out[k] + v;
        }
        proof {
            assert(is_lower_hex(longer));
            assert(out@ =~= decode(longer, 20)) by {
                assert forall|m: int| 0 <= m < 20 implies out@[m] == decode(longer, 20)[m] by {
                    if m != k {
                        assert(decode(shorter, 20)[m] == decode(longer, 20)[m]) by {
                            assert(nibble_at(shorter, 2 * m) == nibble_at(longer, 2 * m));
                            assert(nibble_at(shorter, 2 * m + 1) == nibble_at(longer, 2 * m + 1));
                        }
                    }
                }
            }
        }
        i += 1;
    }
    assert(text@.take(i as int) =~= text@);
    Some(out)
}

} // verus!
