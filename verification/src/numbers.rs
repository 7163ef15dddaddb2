use vstd::prelude::*;

verus! {

/// True when `c` is an ASCII decimal digit.
pub open spec fn is_digit(c: u8) -> bool {
    48 <= c <= 57
}

/// True when every byte of `s` is an ASCII decimal digit.
pub open spec fn all_digits(s: Seq<u8>) -> bool {
    forall|i: int| 0 <= i < s.len() ==> is_digit(s[i])
}

/// The number denoted by a sequence of ASCII digits, most significant
/// first. Meaningful only when `all_digits(s)` holds.
pub open spec fn dec_value(s: Seq<u8>) -> int
    decreases s.len(),
{
    if s.len() == 0 {
        0
    } else {
        dec_value(s.drop_last()) * 10 + s.last() - 48
    }
}

/// The canonical decimal rendering of `n`: no sign, no leading zeros,
/// a single `0` for zero.
pub open spec fn dec_seq(n: nat) -> Seq<u8>
    decreases n,
{
    if n < 10 {
        seq![(48 + n) as u8]
    } else {
        dec_seq(n / 10).push((48 + n % 10) as u8)
    }
}

pub proof fn lemma_dec_value_nonneg(s: Seq<u8>)
    requires
        all_digits(s),
    ensures
        dec_value(s) >= 0,
    decreases s.len(),
{
    if s.len() > 0 {
        assert(all_digits(s.drop_last()));
        lemma_dec_value_nonneg(s.drop_last());
    }
}

/// The value of a digit string never falls when digits are appended:
/// every prefix denotes at most what the whole denotes.
pub proof fn lemma_dec_value_prefix_le(s: Seq<u8>, i: int)
    requires
        0 <= i <= s.len(),
        all_digits(s),
    ensures
        dec_value(s.take(i)) <= dec_value(s),
    decreases s.len() - i,
{
    if i == s.len() {
        assert(s.take(i) =~= s);
    } else {
        assert(s.take(i + 1).drop_last() =~= s.take(i));
        assert(all_digits(s.take(i)));
        lemma_dec_value_nonneg(s.take(i));
        assert(dec_value(s.take(i + 1)) == dec_value(s.take(i)) * 10 + s[i] - 48);
        lemma_dec_value_prefix_le(s, i + 1);
    }
}

/// The digits of a numeral: an optional leading `+` sign is not part of
/// the value.
pub open spec fn numeral_digits(s: Seq<u8>) -> Seq<u8> {
    if s.len() > 0 && s[0] == 43 {
        s.drop_first()
    } else {
        s
    }
}

/// Parse a sequence of ASCII bytes as a non-negative decimal integer,
/// an optional leading `+` allowed. Succeeds exactly when at least one
/// digit follows the optional sign, nothing else does, and the value fits
/// in a `u64`; returns that value.
pub fn parse_u64(s: &Vec<u8>) -> (r: Option<u64>)
    ensures
        match r {
            Some(v) => numeral_digits(s@).len() > 0 && all_digits(numeral_digits(s@)) && v as int
                == dec_value(numeral_digits(s@)),
            None => numeral_digits(s@).len() == 0 || !all_digits(numeral_digits(s@)) || dec_value(
                numeral_digits(s@),
            ) > u64::MAX,
        },
{
    let ghost digits = numeral_digits(s@);
    let start: usize = if s.len() > 0 && s[0] == 43 {
        1
    } else {
        0
    };
    proof {
        assert(digits =~= s@.skip(start as int));
    }
    if s.len() == start {
        return None;
    }
    let mut acc: u64 = 0;
    let mut i: usize = start;
    while i < s.len()
        invariant
            start <= i <= s@.len(),
            digits =~= s@.skip(start as int),
            digits == numeral_digits(s@),
            all_digits(digits.take(i - start)),
            acc as int == dec_value(digits.take(i - start)),
        decreases s@.len() - i,
    {
        let c = s[i];
        proof {
            assert(digits[i - start] == s@[i as int]);
        }
        if c < 48 || c > 57 {
            assert(!is_digit(digits[i - start]));
            return None;
        }
        let d: u64 = (c - 48) as u64;
        proof {
            assert(digits.take(i - start + 1).drop_last() =~= digits.take(i - start));
            assert(digits.take(i - start + 1).last() == s@[i as int]);
            assert(dec_value(digits.take(i - start + 1)) == acc * 10 + d);
        }
        if acc > (u64::MAX - d) / 10 {
            proof {
                // acc >= (u64::MAX - d) / 10 + 1, so 10 * acc + d > u64::MAX
                assert(10 * acc + d > u64::MAX) by (nonlinear_arith)
                    requires
                        acc > (u64::MAX - d as int) / 10,
                        0 <= d <= 9,
                {}
                assert(all_digits(digits.take(i - start + 1)));
                lemma_dec_value_prefix_le(digits.take(i - start + 1), i - start + 1);
                if all_digits(digits) {
                    lemma_dec_value_prefix_le(digits, i - start + 1);
                    assert(digits.take(i - start + 1) =~= digits.take(i - start + 1).take(
                        i - start + 1,
                    ));
                    assert(dec_value(digits) >= dec_value(digits.take(i - start + 1)));
                }
            }
            return None;
        }
        proof {
            assert(10 * acc + d <= u64::MAX) by (nonlinear_arith)
                requires
                    acc <= (u64::MAX - d as int) / 10,
                    0 <= d <= 9,
            {}
        }
        acc = acc * 10 + d;
        i = i + 1;
    }
    proof {
        assert(digits.take(i - start) =~= digits);
    }
    Some(acc)
}

/// Render `n` as its canonical decimal digits.
pub fn dec_bytes(n: u64) -> (v: Vec<u8>)
    ensures
        v@ == dec_seq(n as nat),
{
    let mut rev: Vec<u8> = Vec::new();
    let mut m: u64 = n;
    while m >= 10
        invariant
            dec_seq(n as nat) == dec_seq(m as nat) + rev@.reverse(),
        decreases m,
    {
        let digit: u8 = 48 + (m % 10) as u8;
        proof {
            assert(dec_seq(m as nat) == dec_seq((m as nat) / 10).push(digit));
            assert(dec_seq((m as nat) / 10).push(digit) + rev@.reverse() =~= dec_seq(
                (m as nat) / 10,
            ) + rev@.push(digit).reverse());
        }
        rev.push(digit);
        m = m / 10;
    }
    let digit: u8 = 48 + m as u8;
    proof {
        assert(dec_seq(m as nat) == seq![digit]);
        assert(seq![digit] + rev@.reverse() =~= rev@.push(digit).reverse());
    }
    rev.push(digit);
    let mut v: Vec<u8> = Vec::new();
    let mut i: usize = rev.len();
    while i > 0
        invariant
            0 <= i <= rev@.len(),
            v@ =~= rev@.reverse().take(rev@.len() - i),
        decreases i,
    {
        i = i - 1;
        let b = rev[i];
        proof {
            assert(rev@.reverse()[rev@.len() - i - 1] == rev@[i as int]);
            assert(rev@.reverse().take(rev@.len() - i) =~= rev@.reverse().take(
                rev@.len() - i - 1,
            ).push(rev@[i as int]));
        }
        v.push(b);
    }
    proof {
        assert(v@ =~= rev@.reverse());
    }
    v
}

} // verus!
