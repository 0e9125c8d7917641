//! Parsing of the wire schema's signed decimal integers (entity ids,
//! parent ids and epoch-second timestamps all travel as decimal strings).

use vstd::prelude::*;

verus! {

/// Whether `c` is an ASCII decimal digit (code points 48 through 57).
pub open spec fn is_dec_digit(c: char) -> bool {
    48 <= c as u32 <= 57
}

/// Numeric value of a digit character.
pub open spec fn digit_val(c: char) -> int {
    c as u32 - 48
}

/// Whether every character of `s` is a decimal digit.
pub open spec fn all_dec_digits(s: Seq<char>) -> bool {
    forall|i: int| 0 <= i < s.len() ==> is_dec_digit(#[trigger] s[i])
}

/// The value of a digit string read in base 10, most significant digit first.
pub open spec fn digits_val(s: Seq<char>) -> int
    decreases s.len(),
{
    if s.len() == 0 {
        0
    } else {
        digits_val(s.drop_last()) * 10 + digit_val(s.last())
    }
}

/// What a decimal string denotes as an `i64`: an optional sign, then at
/// least one digit, with the value required to fit in `i64`. Anything else
/// does not parse.
pub open spec fn parse_i64_spec(s: Seq<char>) -> Option<i64> {
    let digits = if s.len() > 0 && (s[0] == '+' || s[0] == '-') {
        s.drop_first()
    } else {
        s
    };
    let neg = s.len() > 0 && s[0] == '-';
    if digits.len() == 0 || !all_dec_digits(digits) {
        None
    } else {
        let v = if neg {
            -digits_val(digits)
        } else {
            digits_val(digits)
        };
        if i64::MIN <= v <= i64::MAX {
            Some(v as i64)
        } else {
            None
        }
    }
}

proof fn lemma_digits_val_nonneg(s: Seq<char>)
    requires
        all_dec_digits(s),
    ensures
        digits_val(s) >= 0,
    decreases s.len(),
{
    if s.len() > 0 {
        assert(all_dec_digits(s.drop_last()));
        lemma_digits_val_nonneg(s.drop_last());
    }
}

/// Appending further digits can only grow the denoted value.
proof fn lemma_digits_val_prefix_le(s: Seq<char>, i: int)
    requires
        all_dec_digits(s),
        0 <= i <= s.len(),
    ensures
        digits_val(s.take(i)) <= digits_val(s),
    decreases s.len() - i,
{
    if i == s.len() {
        assert(s.take(i) =~= s);
    } else {
        assert(s.take(i + 1).drop_last() =~= s.take(i));
        assert(all_dec_digits(s.take(i)));
        lemma_digits_val_nonneg(s.take(i));
        assert(digits_val(s.take(i + 1)) == digits_val(s.take(i)) * 10 + digit_val(s.take(i + 1).last()));
        lemma_digits_val_prefix_le(s, i + 1);
    }
}

/// Parses `s` as a signed decimal `i64`, exactly as the wire schema encodes
/// ids and timestamps.
pub fn parse_i64(s: &str) -> (r: Option<i64>)
    ensures
        r == parse_i64_spec(s@),
{
    let len = s.unicode_len();
    if len == 0 {
        return None;
    }
    let first = s.get_char(0);
    let fv = first as u32;
    // '+' is 43, '-' is 45
    let neg = fv == 45;
    let start: usize = if fv == 43 || fv == 45 {
        1
    } else {
        0
    };
    let ghost digits: Seq<char> = if start == 1 {
        s@.drop_first()
    } else {
        s@
    };
    proof {
        assert(digits =~= s@.subrange(start as int, len as int));
    }
    if start == len {
        return None;
    }
    // Largest magnitude that still fits: one more for a negative value.
    let limit: u64 = if neg {
        9223372036854775808u64
    } else {
        9223372036854775807u64
    };
    let mut acc: u64 = 0;
    let mut i: usize = start;
    while i < len
        invariant
            start <= i <= len,
            len == s@.len(),
            start == 0 || start == 1,
            start == 1 ==> (s@[0] == '+' || s@[0] == '-'),
            start == 0 ==> !(s@[0] == '+' || s@[0] == '-'),
            neg == (s@[0] == '-'),
            digits == s@.subrange(start as int, len as int),
            limit == if neg { 9223372036854775808u64 } else { 9223372036854775807u64 },
            all_dec_digits(digits.take(i - start)),
            acc as int == digits_val(digits.take(i - start)),
            acc <= limit,
        decreases len - i,
    {
        let c = s.get_char(i);
        let cv = c as u32;
        if cv < 48 || cv > 57 {
            // A non-digit in the digit part: nothing parses.
            proof {
                assert(digits[i - start] == c);
                assert(!is_dec_digit(c));
            }
            return None;
        }
        let d: u64 = (cv - 48) as u64;
        proof {
            assert(digits.take(i + 1 - start).drop_last() =~= digits.take(i - start));
            assert(digits.take(i + 1 - start).last() == c);
        }
        if acc > limit / 10 || (acc == limit / 10 && d > limit % 10) {
            // The magnitude already exceeds what an i64 can hold.
            proof {
                assert(acc * 10 + d > limit);
                if all_dec_digits(digits) {
                    lemma_digits_val_prefix_le(digits, i + 1 - start);
                    lemma_digits_val_nonneg(digits);
                    assert(digits_val(digits.take(i + 1 - start)) == acc * 10 + d);
                    assert(digits_val(digits.take(i + 1 - start)) <= digits_val(digits));
                    assert(digits_val(digits) > limit);
                    if neg {
                        assert(digits_val(digits) > 9223372036854775808);
                        assert(-digits_val(digits) < i64::MIN);
                    } else {
                        assert(digits_val(digits) > i64::MAX);
                    }
                }
                let sd = if s@.len() > 0 && (s@[0] == '+' || s@[0] == '-') {
                    s@.drop_first()
                } else {
                    s@
                };
                assert(sd == digits);
                assert(parse_i64_spec(s@) is None);
            }
            return None;
        }
        proof {
            assert(acc * 10 + d <= limit) by {
                assert(acc <= limit / 10);
                assert(limit == (limit / 10) * 10 + limit % 10);
            }
        }
        acc = acc * 10 + d;
        i = i + 1;
    }
    proof {
        assert(digits.take(i - start) =~= digits);
        lemma_digits_val_nonneg(digits);
    }
    if neg {
        if acc == 9223372036854775808u64 {
            Some(i64::MIN)
        } else {
            Some(-(acc as i64))
        }
    } else {
        Some(acc as i64)
    }
}

/// The decimal digit character for a value of zero through nine.
pub open spec fn digit_char(d: int) -> char {
    if d == 0 {
        '0'
    } else if d == 1 {
        '1'
    } else if d == 2 {
        '2'
    } else if d == 3 {
        '3'
    } else if d == 4 {
        '4'
    } else if d == 5 {
        '5'
    } else if d == 6 {
        '6'
    } else if d == 7 {
        '7'
    } else if d == 8 {
        '8'
    } else {
        '9'
    }
}

/// The canonical digit string of a non-negative value: no sign, no
/// leading zeros.
pub open spec fn spec_nat_digits(v: int) -> Seq<char>
    decreases v,
{
    if v <= 9 {
        seq![digit_char(v)]
    } else {
        spec_nat_digits(v / 10).push(digit_char(v % 10))
    }
}

/// The canonical decimal text of an integer, as the wire schema writes it.
pub open spec fn spec_i64_string(v: int) -> Seq<char> {
    if v < 0 {
        seq!['-'] + spec_nat_digits(-v)
    } else {
        spec_nat_digits(v)
    }
}

/// The canonical digit string of a value reads back as that value.
proof fn lemma_nat_digits_val(v: int)
    requires
        v >= 0,
    ensures
        spec_nat_digits(v).len() >= 1,
        all_dec_digits(spec_nat_digits(v)),
        digits_val(spec_nat_digits(v)) == v,
        is_dec_digit(spec_nat_digits(v)[0]),
    decreases v,
{
    if v <= 9 {
        assert(spec_nat_digits(v) =~= seq![digit_char(v)]);
        assert(seq![digit_char(v)].drop_last() =~= Seq::<char>::empty());
        assert(digits_val(Seq::<char>::empty()) == 0);
        assert(seq![digit_char(v)].last() == digit_char(v));
        assert(digits_val(seq![digit_char(v)]) == digit_val(digit_char(v)));
    } else {
        lemma_nat_digits_val(v / 10);
        let s = spec_nat_digits(v);
        let prefix = spec_nat_digits(v / 10);
        assert(s == prefix.push(digit_char(v % 10)));
        assert(s.drop_last() =~= prefix);
        assert(s.last() == digit_char(v % 10));
        assert forall|i: int| 0 <= i < s.len() implies is_dec_digit(#[trigger] s[i]) by {
            if i < prefix.len() {
                assert(s[i] == prefix[i]);
            }
        }
        assert(digits_val(s) == digits_val(prefix) * 10 + digit_val(digit_char(v % 10)));
    }
}

/// What the library writes, its parser reads back: the canonical decimal
/// text of any value denotes exactly that value.
pub proof fn lemma_decimal_round_trip(v: i64)
    ensures
        parse_i64_spec(spec_i64_string(v as int)) == Some(v),
{
    if v >= 0 {
        let s = spec_nat_digits(v as int);
        lemma_nat_digits_val(v as int);
        assert(!(s[0] == '+' || s[0] == '-'));
    } else {
        let s = spec_i64_string(v as int);
        let digits = spec_nat_digits(-(v as int));
        lemma_nat_digits_val(-(v as int));
        assert(s[0] == '-');
        assert(s.drop_first() =~= digits);
    }
}

/// Writes a non-negative value in canonical decimal.
fn nat_digits_string(v: u64) -> (r: String)
    ensures
        r@ == spec_nat_digits(v as int),
    decreases v,
{
    let d = v % 10;
    let digit_str: &str = if d == 0 {
        "0"
    } else if d == 1 {
        "1"
    } else if d == 2 {
        "2"
    } else if d == 3 {
        "3"
    } else if d == 4 {
        "4"
    } else if d == 5 {
        "5"
    } else if d == 6 {
        "6"
    } else if d == 7 {
        "7"
    } else if d == 8 {
        "8"
    } else {
        "9"
    };
    proof {
        reveal_strlit("0");
        reveal_strlit("1");
        reveal_strlit("2");
        reveal_strlit("3");
        reveal_strlit("4");
        reveal_strlit("5");
        reveal_strlit("6");
        reveal_strlit("7");
        reveal_strlit("8");
        reveal_strlit("9");
        assert(digit_str@ =~= seq![digit_char(d as int)]);
    }
    if v <= 9 {
        digit_str.to_owned()
    } else {
        let mut prefix = nat_digits_string(v / 10);
        prefix.append(digit_str);
        proof {
            assert(prefix@ =~= spec_nat_digits((v / 10) as int).push(digit_char(d as int)));
        }
        prefix
    }
}

/// Writes a value as the wire schema's decimal text; `parse_i64` reads it
/// back unchanged.
pub fn i64_to_string(v: i64) -> (r: String)
    ensures
        r@ == spec_i64_string(v as int),
        parse_i64_spec(r@) == Some(v),
{
    proof {
        lemma_decimal_round_trip(v);
    }
    if v < 0 {
        let mag: u64 = if v == i64::MIN {
            9223372036854775808u64
        } else {
            (-v) as u64
        };
        let mut out = "-".to_owned();
        let digits = nat_digits_string(mag);
        out.append(digits.as_str());
        proof {
            reveal_strlit("-");
            assert(out@ =~= spec_i64_string(v as int));
        }
        out
    } else {
        nat_digits_string(v as u64)
    }
}

} // verus!
