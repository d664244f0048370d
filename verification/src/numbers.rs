//! Textual numerals: a numeral is either decimal, or hexadecimal after a
//! leading `0x`. Parsing rejects malformed digits and values past 64 bits.
use vstd::prelude::*;

verus! {

/// `c` is an ASCII decimal digit (`'0'` has code 48, `'9'` code 57).
pub open spec fn is_dec_digit(c: char) -> bool {
    48 <= (c as u32) && (c as u32) <= 57
}

/// Numeric value of a decimal digit; 0 for any other character.
pub open spec fn dec_digit_val(c: char) -> nat {
    if is_dec_digit(c) {
        ((c as u32) - 48) as nat
    } else {
        0
    }
}

/// `c` is an ASCII hexadecimal digit (either case).
pub open spec fn is_hex_digit(c: char) -> bool {
    is_dec_digit(c) || (97 <= (c as u32) && (c as u32) <= 102) || (65 <= (c as u32) && (c as u32)
        <= 70)
}

/// Numeric value of a hexadecimal digit; 0 for any other character.
pub open spec fn hex_digit_val(c: char) -> nat {
    if is_dec_digit(c) {
        ((c as u32) - 48) as nat
    } else if 97 <= (c as u32) && (c as u32) <= 102 {
        ((c as u32) - 87) as nat
    } else if 65 <= (c as u32) && (c as u32) <= 70 {
        ((c as u32) - 55) as nat
    } else {
        0
    }
}

pub open spec fn all_dec_digits(s: Seq<char>) -> bool {
    forall|i: int| 0 <= i < s.len() ==> is_dec_digit(#[trigger] s[i])
}

pub open spec fn all_hex_digits(s: Seq<char>) -> bool {
    forall|i: int| 0 <= i < s.len() ==> is_hex_digit(#[trigger] s[i])
}

/// Value of a digit string read most-significant-first in base 10.
pub open spec fn dec_seq_val(s: Seq<char>) -> nat
    decreases s.len(),
{
    if s.len() == 0 {
        0
    } else {
        dec_seq_val(s.drop_last()) * 10 + dec_digit_val(s.last())
    }
}

/// Value of a digit string read most-significant-first in base 16.
pub open spec fn hex_seq_val(s: Seq<char>) -> nat
    decreases s.len(),
{
    if s.len() == 0 {
        0
    } else {
        hex_seq_val(s.drop_last()) * 16 + hex_digit_val(s.last())
    }
}

/// The value a numeral denotes: hexadecimal after a leading `0x`, decimal
/// otherwise; `None` when empty, malformed, or past 64 bits.
pub open spec fn spec_parse_number(s: Seq<char>) -> Option<u64> {
    if s.len() >= 2 && (s[0] as u32) == 48 && (s[1] as u32) == 120 {
        // "0x" prefix
        let rest = s.subrange(2, s.len() as int);
        if rest.len() > 0 && all_hex_digits(rest) && hex_seq_val(rest) <= u64::MAX {
            Some(hex_seq_val(rest) as u64)
        } else {
            None
        }
    } else {
        if s.len() > 0 && all_dec_digits(s) && dec_seq_val(s) <= u64::MAX {
            Some(dec_seq_val(s) as u64)
        } else {
            None
        }
    }
}

/// A longer decimal digit string never denotes a smaller value.
pub proof fn lemma_dec_prefix_le(s: Seq<char>, i: int)
    requires
        0 <= i <= s.len(),
    ensures
        dec_seq_val(s.subrange(0, i)) <= dec_seq_val(s),
    decreases s.len() - i,
{
    if i == s.len() {
        assert(s.subrange(0, i) =~= s);
    } else {
        let p = s.subrange(0, i);
        let q = s.subrange(0, i + 1);
        assert(q.drop_last() =~= p);
        assert(dec_seq_val(q) == dec_seq_val(p) * 10 + dec_digit_val(s[i]));
        assert(dec_seq_val(p) <= dec_seq_val(p) * 10) by (nonlinear_arith);
        lemma_dec_prefix_le(s, i + 1);
    }
}

/// A longer hexadecimal digit string never denotes a smaller value.
pub proof fn lemma_hex_prefix_le(s: Seq<char>, i: int)
    requires
        0 <= i <= s.len(),
    ensures
        hex_seq_val(s.subrange(0, i)) <= hex_seq_val(s),
    decreases s.len() - i,
{
    if i == s.len() {
        assert(s.subrange(0, i) =~= s);
    } else {
        let p = s.subrange(0, i);
        let q = s.subrange(0, i + 1);
        assert(q.drop_last() =~= p);
        assert(hex_seq_val(q) == hex_seq_val(p) * 16 + hex_digit_val(s[i]));
        assert(hex_seq_val(p) <= hex_seq_val(p) * 16) by (nonlinear_arith);
        lemma_hex_prefix_le(s, i + 1);
    }
}

/// Decimal digit value of `c`, or `None` when `c` is no decimal digit.
pub fn dec_digit_value(c: char) -> (r: Option<u8>)
    ensures
        r is Some <==> is_dec_digit(c),
        r is Some ==> r->0 == dec_digit_val(c),
{
    let u = c as u32;
    if 48 <= u && u <= 57 {
        Some((u - 48) as u8)
    } else {
        None
    }
}

/// Hexadecimal digit value of `c`, or `None` when `c` is no such digit.
pub fn hex_digit_value(c: char) -> (r: Option<u8>)
    ensures
        r is Some <==> is_hex_digit(c),
        r is Some ==> r->0 == hex_digit_val(c),
{
    let u = c as u32;
    if 48 <= u && u <= 57 {
        Some((u - 48) as u8)
    } else if 97 <= u && u <= 102 {
        Some((u - 87) as u8)
    } else if 65 <= u && u <= 70 {
        Some((u - 55) as u8)
    } else {
        None
    }
}

/// Parses `s` from character position `from` to the end as a decimal
/// numeral: all remaining characters must be decimal digits, at least one,
/// and the value must fit in 64 bits.
pub fn parse_dec_from(s: &str, from: usize) -> (r: Option<u64>)
    requires
        from <= s@.len(),
    ensures
        ({
            let rest = s@.subrange(from as int, s@.len() as int);
            &&& (r is Some <==> rest.len() > 0 && all_dec_digits(rest) && dec_seq_val(rest)
                <= u64::MAX)
            &&& (r is Some ==> r->0 as nat == dec_seq_val(rest))
        }),
{
    let ghost rest = s@.subrange(from as int, s@.len() as int);
    let n = s.unicode_len();
    if from >= n {
        return None;
    }
    let mut acc: u64 = 0;
    let mut i: usize = from;
    while i < n
        invariant
            from <= i <= n,
            n == s@.len(),
            rest == s@.subrange(from as int, n as int),
            all_dec_digits(s@.subrange(from as int, i as int)),
            acc as nat == dec_seq_val(s@.subrange(from as int, i as int)),
        decreases n - i,
    {
        let c = s.get_char(i);
        let d = match dec_digit_value(c) {
            Some(d) => d,
            None => {
                proof {
                    assert(rest[i - from] == s@[i as int]);
                }
                return None;
            },
        };
        let ghost prev = s@.subrange(from as int, i as int);
        let ghost cur = s@.subrange(from as int, i + 1);
        proof {
            assert(cur.drop_last() =~= prev);
            assert(cur.last() == s@[i as int]);
        }
        if acc > (u64::MAX - (d as u64)) / 10 {
            proof {
                let m = u64::MAX as int;
                let dd = d as int;
                vstd::arithmetic::div_mod::lemma_fundamental_div_mod(m - dd, 10);
                assert(dec_seq_val(cur) > u64::MAX) by {
                    vstd::arithmetic::mul::lemma_mul_inequality(
                        (m - dd) / 10 + 1,
                        acc as int,
                        10,
                    );
                };
                assert(cur =~= rest.subrange(0, i + 1 - from));
                lemma_dec_prefix_le(rest, i + 1 - from);
            }
            return None;
        }
        proof {
            let m = u64::MAX as int;
            let dd = d as int;
            vstd::arithmetic::div_mod::lemma_fundamental_div_mod(m - dd, 10);
            vstd::arithmetic::mul::lemma_mul_inequality(acc as int, (m - dd) / 10, 10);
        }
        acc = acc * 10 + (d as u64);
        i += 1;
    }
    proof {
        assert(s@.subrange(from as int, i as int) =~= rest);
    }
    Some(acc)
}

/// Parses `s` from character position `from` to the end as a hexadecimal
/// numeral: all remaining characters must be hexadecimal digits, at least
/// one, and the value must fit in 64 bits.
pub fn parse_hex_from(s: &str, from: usize) -> (r: Option<u64>)
    requires
        from <= s@.len(),
    ensures
        ({
            let rest = s@.subrange(from as int, s@.len() as int);
            &&& (r is Some <==> rest.len() > 0 && all_hex_digits(rest) && hex_seq_val(rest)
                <= u64::MAX)
            &&& (r is Some ==> r->0 as nat == hex_seq_val(rest))
        }),
{
    let ghost rest = s@.subrange(from as int, s@.len() as int);
    let n = s.unicode_len();
    if from >= n {
        return None;
    }
    let mut acc: u64 = 0;
    let mut i: usize = from;
    while i < n
        invariant
            from <= i <= n,
            n == s@.len(),
            rest == s@.subrange(from as int, n as int),
            all_hex_digits(s@.subrange(from as int, i as int)),
            acc as nat == hex_seq_val(s@.subrange(from as int, i as int)),
        decreases n - i,
    {
        let c = s.get_char(i);
        let d = match hex_digit_value(c) {
            Some(d) => d,
            None => {
                proof {
                    assert(rest[i - from] == s@[i as int]);
                }
                return None;
            },
        };
        let ghost prev = s@.subrange(from as int, i as int);
        let ghost cur = s@.subrange(from as int, i + 1);
        proof {
            assert(cur.drop_last() =~= prev);
            assert(cur.last() == s@[i as int]);
        }
        if acc > (u64::MAX - (d as u64)) / 16 {
            proof {
                let m = u64::MAX as int;
                let dd = d as int;
                vstd::arithmetic::div_mod::lemma_fundamental_div_mod(m - dd, 16);
                assert(hex_seq_val(cur) > u64::MAX) by {
                    vstd::arithmetic::mul::lemma_mul_inequality(
                        (m - dd) / 16 + 1,
                        acc as int,
                        16,
                    );
                };
                assert(cur =~= rest.subrange(0, i + 1 - from));
                lemma_hex_prefix_le(rest, i + 1 - from);
            }
            return None;
        }
        proof {
            let m = u64::MAX as int;
            let dd = d as int;
            vstd::arithmetic::div_mod::lemma_fundamental_div_mod(m - dd, 16);
            vstd::arithmetic::mul::lemma_mul_inequality(acc as int, (m - dd) / 16, 16);
        }
        acc = acc * 16 + (d as u64);
        i += 1;
    }
    proof {
        assert(s@.subrange(from as int, i as int) =~= rest);
    }
    Some(acc)
}

} // verus!
