//! Verified plain-text rendering of numbers and byte strings, used by
//! the human-readable dump output.

use vstd::prelude::*;
use vstd::string::StringExecFns;

verus! {

/// Hexadecimal digit `d` (0 to 15) as a lowercase character; the
/// decimal digits are the first ten.
pub open spec fn hex_digit_l(d: int) -> char {
    if d == 0 {
        '0'
    } else if d == 1 {
        '1'
    } else if d == 2 {
        '2'
    } else if d == 3 {
        '3'
    } else if d == 4 {
        '4'
    } else if d == 5 {
        '5'
    } else if d == 6 {
        '6'
    } else if d == 7 {
        '7'
    } else if d == 8 {
        '8'
    } else if d == 9 {
        '9'
    } else if d == 10 {
        'a'
    } else if d == 11 {
        'b'
    } else if d == 12 {
        'c'
    } else if d == 13 {
        'd'
    } else if d == 14 {
        'e'
    } else {
        'f'
    }
}

/// Hexadecimal digit `d` (0 to 15) as an uppercase character.
pub open spec fn hex_digit_u(d: int) -> char {
    if d < 10 {
        hex_digit_l(d)
    } else if d == 10 {
        'A'
    } else if d == 11 {
        'B'
    } else if d == 12 {
        'C'
    } else if d == 13 {
        'D'
    } else if d == 14 {
        'E'
    } else {
        'F'
    }
}

/// Decimal rendering of `n >= 0`, without leading zeros.
pub open spec fn dec_rep(n: int) -> Seq<char>
    decreases n,
{
    if n < 0 {
        Seq::empty()
    } else if n < 10 {
        seq![hex_digit_l(n)]
    } else {
        dec_rep(n / 10).push(hex_digit_l(n % 10))
    }
}

/// Uppercase hexadecimal rendering of `n >= 0`, zero-padded on the
/// left to at least `w` digits.
pub open spec fn hex_rep_u(n: int, w: int) -> Seq<char>
    decreases (if n >= 0 {
        n
    } else {
        0int
    }) + (if w >= 1 {
        w
    } else {
        0int
    }),
{
    if n < 0 {
        Seq::empty()
    } else if n < 16 && w <= 1 {
        seq![hex_digit_u(n)]
    } else {
        hex_rep_u(
            n / 16,
            if w >= 1 {
                w - 1
            } else {
                0
            },
        ).push(hex_digit_u(n % 16))
    }
}

/// Lowercase hexadecimal rendering of `n >= 0`, zero-padded on the
/// left to at least `w` digits.
pub open spec fn hex_rep_l(n: int, w: int) -> Seq<char>
    decreases (if n >= 0 {
        n
    } else {
        0int
    }) + (if w >= 1 {
        w
    } else {
        0int
    }),
{
    if n < 0 {
        Seq::empty()
    } else if n < 16 && w <= 1 {
        seq![hex_digit_l(n)]
    } else {
        hex_rep_l(
            n / 16,
            if w >= 1 {
                w - 1
            } else {
                0
            },
        ).push(hex_digit_l(n % 16))
    }
}

/// Lowercase (and decimal) digit `d` as a one-character string slice.
fn digit_str_l(d: u64) -> (r: &'static str)
    requires
        d < 16,
    ensures
        r@ == seq![hex_digit_l(d as int)],
{
    match d {
        0 => {
            proof {
                reveal_strlit("0");
            }
            "0"
        },
        1 => {
            proof {
                reveal_strlit("1");
            }
            "1"
        },
        2 => {
            proof {
                reveal_strlit("2");
            }
            "2"
        },
        3 => {
            proof {
                reveal_strlit("3");
            }
            "3"
        },
        4 => {
            proof {
                reveal_strlit("4");
            }
            "4"
        },
        5 => {
            proof {
                reveal_strlit("5");
            }
            "5"
        },
        6 => {
            proof {
                reveal_strlit("6");
            }
            "6"
        },
        7 => {
            proof {
                reveal_strlit("7");
            }
            "7"
        },
        8 => {
            proof {
                reveal_strlit("8");
            }
            "8"
        },
        9 => {
            proof {
                reveal_strlit("9");
            }
            "9"
        },
        10 => {
            proof {
                reveal_strlit("a");
            }
            "a"
        },
        11 => {
            proof {
                reveal_strlit("b");
            }
            "b"
        },
        12 => {
            proof {
                reveal_strlit("c");
            }
            "c"
        },
        13 => {
            proof {
                reveal_strlit("d");
            }
            "d"
        },
        14 => {
            proof {
                reveal_strlit("e");
            }
            "e"
        },
        _ => {
            proof {
                reveal_strlit("f");
            }
            "f"
        },
    }
}

/// Uppercase hexadecimal digit `d` as a one-character string slice.
fn digit_str_u(d: u64) -> (r: &'static str)
    requires
        d < 16,
    ensures
        r@ == seq![hex_digit_u(d as int)],
{
    if d < 10 {
        digit_str_l(d)
    } else {
        match d {
            10 => {
                proof {
                    reveal_strlit("A");
                }
                "A"
            },
            11 => {
                proof {
                    reveal_strlit("B");
                }
                "B"
            },
            12 => {
                proof {
                    reveal_strlit("C");
                }
                "C"
            },
            13 => {
                proof {
                    reveal_strlit("D");
                }
                "D"
            },
            14 => {
                proof {
                    reveal_strlit("E");
                }
                "E"
            },
            _ => {
                proof {
                    reveal_strlit("F");
                }
                "F"
            },
        }
    }
}

/// Renders `n` in decimal.
pub fn fmt_dec(n: u64) -> (r: String)
    ensures
        r@ == dec_rep(n as int),
    decreases n,
{
    if n < 10 {
        let mut s = String::new();
        s.append(digit_str_l(n));
        assert(s@ =~= dec_rep(n as int));
        s
    } else {
        let mut s = fmt_dec(n / 10);
        s.append(digit_str_l(n % 10));
        assert(s@ =~= dec_rep(n as int));
        s
    }
}

/// Renders `n` in uppercase hexadecimal, zero-padded to at least `w`
/// digits.
pub fn fmt_hex_u(n: u64, w: u64) -> (r: String)
    ensures
        r@ == hex_rep_u(n as int, w as int),
    decreases n + w,
{
    if n < 16 && w <= 1 {
        let mut s = String::new();
        s.append(digit_str_u(n));
        assert(s@ =~= hex_rep_u(n as int, w as int));
        s
    } else {
        let w1 = if w >= 1 {
            w - 1
        } else {
            0
        };
        let mut s = fmt_hex_u(n / 16, w1);
        s.append(digit_str_u(n % 16));
        assert(s@ =~= hex_rep_u(n as int, w as int));
        s
    }
}

/// Renders `n` in lowercase hexadecimal, zero-padded to at least `w`
/// digits.
pub fn fmt_hex_l(n: u64, w: u64) -> (r: String)
    ensures
        r@ == hex_rep_l(n as int, w as int),
    decreases n + w,
{
    if n < 16 && w <= 1 {
        let mut s = String::new();
        s.append(digit_str_l(n));
        assert(s@ =~= hex_rep_l(n as int, w as int));
        s
    } else {
        let w1 = if w >= 1 {
            w - 1
        } else {
            0
        };
        let mut s = fmt_hex_l(n / 16, w1);
        s.append(digit_str_l(n % 16));
        assert(s@ =~= hex_rep_l(n as int, w as int));
        s
    }
}

/// The characters that a run of ASCII bytes spells.
pub open spec fn ascii_chars(b: Seq<u8>) -> Seq<char> {
    b.map_values(|c: u8| c as char)
}

/// Relies on `std::str::from_utf8`: ASCII bytes are valid UTF-8 and
/// decode to exactly their own characters, so under the precondition
/// the call cannot fail.
#[verifier::external_body]
fn ascii_str(b: &[u8]) -> (r: String)
    requires
        forall|i: int| 0 <= i < b@.len() ==> b@[i] < 0x80,
    ensures
        r@ == ascii_chars(b@),
{
    std::str::from_utf8(b).unwrap().to_string()
}

/// How a byte string is shown: ASCII bytes as their characters,
/// anything else as a fixed placeholder.
pub open spec fn byte_text(b: Seq<u8>) -> Seq<char> {
    if (forall|i: int| 0 <= i < b.len() ==> b[i] < 0x80) {
        ascii_chars(b)
    } else {
        "[Utf8Error]"@
    }
}

/// Renders a byte string for display: ASCII bytes are shown as their
/// characters, anything else as a fixed placeholder.
pub fn fmt_bytes(b: &[u8]) -> (r: String)
    ensures
        r@ == byte_text(b@),
{
    let n = b.len();
    let mut i: usize = 0;
    while i < n
        invariant
            i <= n,
            n == b@.len(),
            forall|j: int| 0 <= j < i ==> b@[j] < 0x80,
        decreases n - i,
    {
        if b[i] >= 0x80 {
            let mut s = String::new();
            s.append("[Utf8Error]");
            assert(s@ =~= "[Utf8Error]"@);
            return s;
        }
        i = i + 1;
    }
    ascii_str(b)
}

} // verus!
