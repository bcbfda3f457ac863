//! Decimal text for 64-bit integers, as bytes: the form used by integer
//! replies, length prefixes and numeric command arguments.
use vstd::prelude::*;

verus! {

pub open spec fn is_digit(b: u8) -> bool {
    48 <= b <= 57
}

pub open spec fn all_digits(s: Seq<u8>) -> bool {
    forall|i: int| 0 <= i < s.len() ==> is_digit(#[trigger] s[i])
}

/// The value of a run of decimal digits, most significant first.
pub open spec fn digits_value(s: Seq<u8>) -> int
    decreases s.len(),
{
    if s.len() == 0 {
        0
    } else {
        digits_value(s.drop_last()) * 10 + (s.last() - 48)
    }
}

pub open spec fn in_i64(n: int) -> bool {
    i64::MIN <= n <= i64::MAX
}

/// The integer that `s` writes: an optional `-` or `+`, then one or more
/// digits, with a value that fits in an `i64`.
pub open spec fn parse_int(s: Seq<u8>) -> Option<int> {
    let neg = s.len() > 0 && s[0] == 45u8;
    let signed = s.len() > 0 && (s[0] == 45u8 || s[0] == 43u8);
    let body = if signed {
        s.skip(1)
    } else {
        s
    };
    let v = if neg {
        -digits_value(body)
    } else {
        digits_value(body)
    };
    if body.len() > 0 && all_digits(body) && in_i64(v) {
        Some(v)
    } else {
        None
    }
}

/// The canonical decimal digits of a natural number.
pub open spec fn nat_text(m: nat) -> Seq<u8>
    decreases m,
{
    if m < 10 {
        seq![(48 + m) as u8]
    } else {
        nat_text(m / 10).push((48 + m % 10) as u8)
    }
}

/// The canonical decimal text of an integer: `-` before a negative one.
pub open spec fn int_text(n: int) -> Seq<u8> {
    if n < 0 {
        seq![45u8] + nat_text((-n) as nat)
    } else {
        nat_text(n as nat)
    }
}

proof fn lemma_nat_text(m: nat)
    ensures
        nat_text(m).len() > 0,
        all_digits(nat_text(m)),
        digits_value(nat_text(m)) == m,
    decreases m,
{
    if m >= 10 {
        lemma_nat_text(m / 10);
        let t = nat_text(m);
        assert(t.drop_last() =~= nat_text(m / 10));
        assert(t.last() == 48 + m % 10);
        assert((m / 10) * 10 + m % 10 == m) by (nonlinear_arith);
        assert(digits_value(t) == digits_value(t.drop_last()) * 10 + (t.last() - 48));
        assert forall|i: int| 0 <= i < t.len() implies is_digit(#[trigger] t[i]) by {
            if i < t.len() - 1 {
                assert(t[i] == nat_text(m / 10)[i]);
            }
        }
    } else {
        let t = nat_text(m);
        assert(t.drop_last() =~= Seq::<u8>::empty());
        assert(t.last() == 48 + m);
        assert(digits_value(t) == digits_value(t.drop_last()) * 10 + (t.last() - 48));
    }
}

/// Every byte of a decimal text is a digit or the minus sign.
pub proof fn lemma_int_text_bytes(n: int)
    ensures
        int_text(n).len() > 0,
        forall|i: int|
            0 <= i < int_text(n).len() ==> is_digit(#[trigger] int_text(n)[i]) || int_text(n)[i]
                == 45u8,
{
    if n < 0 {
        lemma_nat_text((-n) as nat);
        let t = int_text(n);
        assert forall|i: int| 0 <= i < t.len() implies is_digit(#[trigger] t[i]) || t[i]
            == 45u8 by {
            if i > 0 {
                assert(t[i] == nat_text((-n) as nat)[i - 1]);
            }
        }
    } else {
        lemma_nat_text(n as nat);
    }
}

/// Reading back the decimal text of an `i64` gives the same integer.
pub proof fn lemma_parse_int_text(n: int)
    requires
        in_i64(n),
    ensures
        parse_int(int_text(n)) == Some(n),
{
    let t = int_text(n);
    if n < 0 {
        lemma_nat_text((-n) as nat);
        assert(t.skip(1) =~= nat_text((-n) as nat));
    } else {
        lemma_nat_text(n as nat);
        assert(is_digit(t[0]));
    }
}

proof fn lemma_digits_prefix_grows(s: Seq<u8>, i: int)
    requires
        0 <= i <= s.len(),
        all_digits(s),
    ensures
        digits_value(s.subrange(0, i)) <= digits_value(s),
        0 <= digits_value(s.subrange(0, i)),
    decreases s.len() - i,
{
    if i < s.len() {
        lemma_digits_prefix_grows(s, i + 1);
        let p = s.subrange(0, i + 1);
        assert(p.drop_last() =~= s.subrange(0, i));
        assert(is_digit(s[i]));
    } else {
        assert(s.subrange(0, i) =~= s);
        lemma_digits_nonneg(s);
    }
}

proof fn lemma_digits_nonneg(s: Seq<u8>)
    requires
        all_digits(s),
    ensures
        0 <= digits_value(s),
    decreases s.len(),
{
    if s.len() > 0 {
        assert(all_digits(s.drop_last())) by {
            assert forall|i: int| 0 <= i < s.len() - 1 implies is_digit(
                #[trigger] s.drop_last()[i],
            ) by {
                assert(s.drop_last()[i] == s[i]);
            }
        }
        lemma_digits_nonneg(s.drop_last());
        assert(is_digit(s[s.len() - 1]));
    }
}

/// Reads the integer that `s` writes, as `parse_int` describes it.
pub fn parse_i64(s: &[u8]) -> (r: Option<i64>)
    ensures
        match r {
            Some(n) => parse_int(s@) == Some(n as int),
            None => parse_int(s@) is None,
        },
{
    let len = s.len();
    if len == 0 {
        return None;
    }
    let neg = s[0] == 45u8;
    let start: usize = if s[0] == 45u8 || s[0] == 43u8 {
        1
    } else {
        0
    };
    if start == len {
        return None;
    }
    let ghost body = s@.skip(start as int);
    proof {
        if start == 0 {
            assert(body =~= s@);
        }
    }
    let mut acc: i128 = 0;
    let mut i: usize = start;
    while i < len
        invariant
            start <= i <= len,
            len == s@.len(),
            start < len,
            start <= 1,
            start == 1 <==> (s@[0] == 45u8 || s@[0] == 43u8),
            neg == (s@[0] == 45u8),
            body == s@.skip(start as int),
            start == 0 ==> body == s@,
            all_digits(s@.subrange(start as int, i as int)),
            neg ==> acc == -digits_value(s@.subrange(start as int, i as int)),
            !neg ==> acc == digits_value(s@.subrange(start as int, i as int)),
            in_i64(acc as int),
        decreases len - i,
    {
        let b = s[i];
        let ghost prev = s@.subrange(start as int, i as int);
        let ghost next = s@.subrange(start as int, i as int + 1);
        assert(next.drop_last() =~= prev);
        assert(digits_value(next) == digits_value(prev) * 10 + (next.last() - 48));
        assert(next.last() == b);
        if b < 48 || b > 57 {
            proof {
                assert(body[i - start] == b);
                assert(!all_digits(body));
            }
            return None;
        }
        let d = (b - 48) as i128;
        let v: i128 = if neg {
            acc * 10 - d
        } else {
            acc * 10 + d
        };
        assert(all_digits(next)) by {
            assert forall|j: int| 0 <= j < next.len() implies is_digit(#[trigger] next[j]) by {
                if j < prev.len() {
                    assert(next[j] == prev[j]);
                }
            }
        }
        if v < i64::MIN as i128 || v > i64::MAX as i128 {
            proof {
                let k = i - start + 1;
                assert(next =~= body.subrange(0, k));
                if all_digits(body) {
                    lemma_digits_prefix_grows(body, k);
                    assert(digits_value(next) <= digits_value(body));
                    if neg {
                        assert(v == -digits_value(next));
                    } else {
                        assert(v == digits_value(next));
                    }
                }
            }
            return None;
        }
        acc = v;
        i = i + 1;
    }
    proof {
        assert(s@.subrange(start as int, len as int) =~= body);
    }
    Some(acc as i64)
}

fn write_nat(m: u64, out: &mut Vec<u8>)
    ensures
        final(out)@ == old(out)@ + nat_text(m as nat),
    decreases m,
{
    if m >= 10 {
        write_nat(m / 10, out);
    }
    out.push(48u8 + (m % 10) as u8);
    proof {
        if m >= 10 {
            assert(nat_text(m as nat) == nat_text((m / 10) as nat).push((48 + m % 10) as u8));
        }
    }
    assert(out@ =~= old(out)@ + nat_text(m as nat));
}

/// Appends the decimal text of `n`.
pub fn write_int(n: i64, out: &mut Vec<u8>)
    ensures
        final(out)@ == old(out)@ + int_text(n as int),
{
    if n < 0 {
        out.push(45u8);
        let m: u64 = (0i128 - n as i128) as u64;
        write_nat(m, out);
        assert(out@ =~= old(out)@ + int_text(n as int));
    } else {
        write_nat(n as u64, out);
    }
}

/// Appends the decimal text of a length.
pub fn write_len(n: usize, out: &mut Vec<u8>)
    ensures
        final(out)@ == old(out)@ + int_text(n as int),
{
    write_nat(n as u64, out);
}

} // verus!
