//! Canonical textual form of keys.
//!
//! Keys are 128-bit identifiers; their textual form is the usual hyphenated
//! one: 32 lowercase hexadecimal digits, most significant first, with hyphens
//! after the 8th, 12th, 16th and 20th digit.

use vstd::prelude::*;
use vstd::string::StringExecFns;
use vstd::arithmetic::div_mod::lemma_div_denominator;
use crate::model::Key;

verus! {

pub open spec fn pow16(j: int) -> int
    decreases j,
{
    if j <= 0 {
        1
    } else {
        16 * pow16(j - 1)
    }
}

proof fn lemma_pow16_pos(j: int)
    ensures
        pow16(j) > 0,
    decreases j,
{
    if j > 0 {
        lemma_pow16_pos(j - 1);
    }
}

/// The `j`-th hexadecimal digit of `k`, counting from the least significant.
pub open spec fn nibble(k: Key, j: int) -> int {
    (k as int / pow16(j)) % 16
}

pub open spec fn hex_char(n: int) -> char {
    if n == 0 {
        '0'
    } else if n == 1 {
        '1'
    } else if n == 2 {
        '2'
    } else if n == 3 {
        '3'
    } else if n == 4 {
        '4'
    } else if n == 5 {
        '5'
    } else if n == 6 {
        '6'
    } else if n == 7 {
        '7'
    } else if n == 8 {
        '8'
    } else if n == 9 {
        '9'
    } else if n == 10 {
        'a'
    } else if n == 11 {
        'b'
    } else if n == 12 {
        'c'
    } else if n == 13 {
        'd'
    } else if n == 14 {
        'e'
    } else {
        'f'
    }
}

/// Which digit (counting from the most significant) stands at position `p` of
/// the hyphenated form.
pub open spec fn digit_index(p: int) -> int {
    if p < 8 {
        p
    } else if p < 13 {
        p - 1
    } else if p < 18 {
        p - 2
    } else if p < 23 {
        p - 3
    } else {
        p - 4
    }
}

/// The canonical hyphenated textual form of a key.
pub open spec fn spec_uuid_str(k: Key) -> Seq<char> {
    Seq::new(
        36,
        |p: int|
            if p == 8 || p == 13 || p == 18 || p == 23 {
                '-'
            } else {
                hex_char(nibble(k, 31 - digit_index(p)))
            },
    )
}

fn hex_push(s: &mut String, d: u8)
    requires
        d < 16,
    ensures
        final(s)@ == old(s)@ + seq![hex_char(d as int)],
{
    proof {
        reveal_strlit("0");
        reveal_strlit("1");
        reveal_strlit("2");
        reveal_strlit("3");
        reveal_strlit("4");
        reveal_strlit("5");
        reveal_strlit("6");
        reveal_strlit("7");
        reveal_strlit("8");
        reveal_strlit("9");
        reveal_strlit("a");
        reveal_strlit("b");
        reveal_strlit("c");
        reveal_strlit("d");
        reveal_strlit("e");
        reveal_strlit("f");
    }
    match d {
        0 => {
            s.append("0");
            proof {
                assert(s@ =~= old(s)@ + seq![hex_char(d as int)]);
            }
        },
        1 => {
            s.append("1");
            proof {
                assert(s@ =~= old(s)@ + seq![hex_char(d as int)]);
            }
        },
        2 => {
            s.append("2");
            proof {
                assert(s@ =~= old(s)@ + seq![hex_char(d as int)]);
            }
        },
        3 => {
            s.append("3");
            proof {
                assert(s@ =~= old(s)@ + seq![hex_char(d as int)]);
            }
        },
        4 => {
            s.append("4");
            proof {
                assert(s@ =~= old(s)@ + seq![hex_char(d as int)]);
            }
        },
        5 => {
            s.append("5");
            proof {
                assert(s@ =~= old(s)@ + seq![hex_char(d as int)]);
            }
        },
        6 => {
            s.append("6");
            proof {
                assert(s@ =~= old(s)@ + seq![hex_char(d as int)]);
            }
        },
        7 => {
            s.append("7");
            proof {
                assert(s@ =~= old(s)@ + seq![hex_char(d as int)]);
            }
        },
        8 => {
            s.append("8");
            proof {
                assert(s@ =~= old(s)@ + seq![hex_char(d as int)]);
            }
        },
        9 => {
            s.append("9");
            proof {
                assert(s@ =~= old(s)@ + seq![hex_char(d as int)]);
            }
        },
        10 => {
            s.append("a");
            proof {
                assert(s@ =~= old(s)@ + seq![hex_char(d as int)]);
            }
        },
        11 => {
            s.append("b");
            proof {
                assert(s@ =~= old(s)@ + seq![hex_char(d as int)]);
            }
        },
        12 => {
            s.append("c");
            proof {
                assert(s@ =~= old(s)@ + seq![hex_char(d as int)]);
            }
        },
        13 => {
            s.append("d");
            proof {
                assert(s@ =~= old(s)@ + seq![hex_char(d as int)]);
            }
        },
        14 => {
            s.append("e");
            proof {
                assert(s@ =~= old(s)@ + seq![hex_char(d as int)]);
            }
        },
        15 => {
            s.append("f");
            proof {
                assert(s@ =~= old(s)@ + seq![hex_char(d as int)]);
            }
        },
        _ => {
            proof {
                assert(false);
            }
        },
    }
}

/// Writes a key in its canonical hyphenated textual form.
pub fn uuid_hyphenated(k: Key) -> (s: String)
    ensures
        s@ == spec_uuid_str(k),
{
    let mut digits: Vec<u8> = Vec::new();
    let mut tmp: u128 = k;
    let mut j: usize = 0;
    proof {
        lemma_pow16_pos(0);
    }
    while j < 32
        invariant
            0 <= j <= 32,
            digits@.len() == j,
            pow16(j as int) > 0,
            tmp as int == k as int / pow16(j as int),
            forall|i: int| 0 <= i < j ==> (#[trigger] digits@[i]) as int == nibble(k, i),
        decreases 32 - j,
    {
        let ghost j0 = j as int;
        let d: u8 = (tmp % 16) as u8;
        proof {
            assert(d as int == nibble(k, j0));
        }
        digits.push(d);
        tmp = tmp / 16;
        j += 1;
        proof {
            lemma_pow16_pos(j0);
            lemma_div_denominator(k as int, pow16(j0), 16);
            assert(pow16(j0 + 1) == pow16(j0) * 16);
            assert(tmp as int == k as int / pow16(j as int));
            lemma_pow16_pos(j as int);
        }
    }
    let mut s = String::new();
    let mut p: usize = 0;
    proof {
        assert(s@ =~= spec_uuid_str(k).subrange(0, 0));
    }
    while p < 36
        invariant
            0 <= p <= 36,
            s@ == spec_uuid_str(k).subrange(0, p as int),
            digits@.len() == 32,
            forall|i: int| 0 <= i < 32 ==> (#[trigger] digits@[i]) as int == nibble(k, i),
        decreases 36 - p,
    {
        let ghost p0 = p as int;
        if p == 8 || p == 13 || p == 18 || p == 23 {
            s.append("-");
            proof {
                reveal_strlit("-");
                assert(s@ =~= spec_uuid_str(k).subrange(0, p0 + 1));
            }
        } else {
            let d_idx: usize = if p < 8 {
                p
            } else if p < 13 {
                p - 1
            } else if p < 18 {
                p - 2
            } else if p < 23 {
                p - 3
            } else {
                p - 4
            };
            proof {
                assert(d_idx as int == digit_index(p0));
                assert(d_idx < 32);
                assert(digits@[31 - d_idx as int] as int == nibble(k, 31 - d_idx as int));
            }
            let digit = digits[31 - d_idx];
            hex_push(&mut s, digit);
            proof {
                assert(s@ =~= spec_uuid_str(k).subrange(0, p0 + 1));
            }
        }
        p += 1;
    }
    proof {
        assert(spec_uuid_str(k).subrange(0, 36) =~= spec_uuid_str(k));
    }
    s
}

/// The textual form of a key wrapped in single quotes, as SQL literals want
/// it.
pub open spec fn quoted_key(k: Key) -> Seq<char> {
    seq!['\''] + spec_uuid_str(k) + seq!['\'']
}

/// Writes a key as a single-quoted SQL literal.
pub fn quoted_uuid(k: Key) -> (s: String)
    ensures
        s@ == quoted_key(k),
{
    proof {
        reveal_strlit("'");
    }
    let mut s = String::from_str("'");
    let u = uuid_hyphenated(k);
    s.append(u.as_str());
    s.append("'");
    proof {
        assert(s@ =~= quoted_key(k));
    }
    s
}

} // verus!
