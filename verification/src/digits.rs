//! Decimal digit strings: the timestamp field of a log record is an
//! unsigned integer written in base ten. Both directions are verified
//! against one mathematical description of the encoding.

use vstd::prelude::*;

verus! {

pub open spec fn is_digit(b: u8) -> bool {
    48 <= b <= 57
}

pub open spec fn all_digits(s: Seq<u8>) -> bool {
    forall|i: int| 0 <= i < s.len() ==> is_digit(s[i])
}

/// Numeric value of a digit string, most significant digit first.
pub open spec fn digits_val(s: Seq<u8>) -> int
    decreases s.len(),
{
    if s.len() == 0 {
        0
    } else {
        digits_val(s.drop_last()) * 10 + (s.last() - 48)
    }
}

/// The canonical decimal digits of `n`: no sign, no leading zeros.
pub open spec fn decimal(n: nat) -> Seq<u8>
    decreases n,
{
    if n < 10 {
        seq![(48 + n) as u8]
    } else {
        decimal((n / 10) as nat).push((48 + n % 10) as u8)
    }
}

/// What `u64` parsing accepts: an optional leading `+`, then one or more
/// decimal digits whose value fits in a `u64`.
pub open spec fn spec_parse_u64(s: Seq<u8>) -> Option<u64> {
    let t = if s.len() > 0 && s[0] == 43 {
        s.drop_first()
    } else {
        s
    };
    if t.len() > 0 && all_digits(t) && digits_val(t) <= u64::MAX {
        Some(digits_val(t) as u64)
    } else {
        None
    }
}

pub proof fn lemma_digits_val_nonneg(s: Seq<u8>)
    requires
        all_digits(s),
    ensures
        digits_val(s) >= 0,
    decreases s.len(),
{
    if s.len() > 0 {
        assert(all_digits(s.drop_last()));
        lemma_digits_val_nonneg(s.drop_last());
    }
}

/// The decimal digits of `n` are digits, are nonempty, and read back as `n`.
pub proof fn lemma_decimal_digits(n: nat)
    ensures
        all_digits(decimal(n)),
        decimal(n).len() >= 1,
        digits_val(decimal(n)) == n,
    decreases n,
{
    if n < 10 {
        let s = seq![(48 + n) as u8];
        assert(decimal(n) =~= s);
        assert(s.drop_last() =~= Seq::<u8>::empty());
        assert(digits_val(Seq::<u8>::empty()) == 0);
        assert(s.last() == (48 + n) as u8);
        assert((48 + n) as u8 == 48 + n);
        assert(digits_val(s) == digits_val(s.drop_last()) * 10 + (s.last() - 48));
        assert(digits_val(s) == n);
    } else {
        lemma_decimal_digits((n / 10) as nat);
        let d = decimal((n / 10) as nat);
        let c = (48 + n % 10) as u8;
        assert(d.push(c).drop_last() =~= d);
        assert(d.push(c).last() == c);
        assert(forall|i: int|
            0 <= i < d.push(c).len() ==> is_digit(#[trigger] d.push(c)[i]));
        assert(digits_val(d.push(c)) == digits_val(d) * 10 + (c - 48));
        assert(digits_val(d) == n / 10);
        assert((n / 10) * 10 + n % 10 == n) by {
            vstd::arithmetic::div_mod::lemma_fundamental_div_mod(n as int, 10);
        }
    }
}

/// A digit string is worth at least as much as any of its prefixes.
pub proof fn lemma_digits_val_prefix(s: Seq<u8>, i: int)
    requires
        all_digits(s),
        0 <= i <= s.len(),
    ensures
        digits_val(s.take(i)) <= digits_val(s),
    decreases s.len(),
{
    if i == s.len() {
        assert(s.take(i) =~= s);
    } else {
        assert(all_digits(s.drop_last()));
        assert(s.drop_last().take(i) =~= s.take(i));
        lemma_digits_val_prefix(s.drop_last(), i);
        lemma_digits_val_nonneg(s.drop_last());
        assert(digits_val(s) == digits_val(s.drop_last()) * 10 + (s.last() - 48));
    }
}

/// Parses a decimal `u64`, accepting an optional leading `+`; `None` on an
/// empty string, a non-digit byte, or overflow.
pub fn parse_u64(s: &Vec<u8>) -> (r: Option<u64>)
    ensures
        r == spec_parse_u64(s@),
{
    let st: usize = if s.len() > 0 && s[0] == 43 {
        1
    } else {
        0
    };
    let ghost t = if s@.len() > 0 && s@[0] == 43 {
        s@.drop_first()
    } else {
        s@
    };
    proof {
        assert(t =~= s@.subrange(st as int, s@.len() as int));
    }
    if s.len() == st {
        return None;
    }
    let mut acc: u64 = 0;
    let mut i: usize = st;
    while i < s.len()
        invariant
            st <= i <= s@.len(),
            st <= 1,
            t == (if s@.len() > 0 && s@[0] == 43 {
                s@.drop_first()
            } else {
                s@
            }),
            t =~= s@.subrange(st as int, s@.len() as int),
            t.len() == s@.len() - st,
            all_digits(t.take(i - st)),
            acc == digits_val(t.take(i - st)),
        decreases s@.len() - i,
    {
        let b = s[i];
        proof {
            assert(t[i - st] == b);
        }
        if !(48 <= b && b <= 57) {
            proof {
                assert(!is_digit(t[i - st]));
                assert(!all_digits(t));
            }
            return None;
        }
        let ghost pre = t.take(i - st);
        let ghost ext = t.take(i + 1 - st);
        proof {
            assert(ext.drop_last() =~= pre);
            assert(ext.last() == b);
            assert(digits_val(ext) == acc * 10 + (b - 48));
            assert(all_digits(ext));
        }
        let step = match acc.checked_mul(10) {
            Some(x) => x.checked_add((b - 48) as u64),
            None => None,
        };
        match step {
            Some(x) => {
                acc = x;
            },
            None => {
                proof {
                    assert(digits_val(ext) > u64::MAX);
                    if all_digits(t) {
                        lemma_digits_val_prefix(t, i + 1 - st);
                        assert(digits_val(t) > u64::MAX);
                    }
                }
                return None;
            },
        }
        i = i + 1;
    }
    proof {
        assert(t.take(i - st) =~= t);
    }
    Some(acc)
}

/// Writes `n` in decimal.
pub fn u64_to_decimal(n: u64) -> (r: Vec<u8>)
    ensures
        r@ == decimal(n as nat),
{
    let mut rev: Vec<u8> = Vec::new();
    let mut m: u64 = n;
    let ghost mut tail: Seq<u8> = Seq::empty();
    proof {
        assert(decimal(n as nat) =~= decimal(m as nat) + tail);
    }
    while m >= 10
        invariant
            decimal(n as nat) =~= decimal(m as nat) + tail,
            rev@.len() == tail.len(),
            forall|k: int| 0 <= k < tail.len() ==> rev@[k] == tail[tail.len() - 1 - k],
        decreases m,
    {
        let d = (m % 10) as u8 + 48;
        let m2 = m / 10;
        proof {
            assert(decimal(m as nat) == decimal(m2 as nat).push(d));
            assert(decimal(m2 as nat).push(d) + tail =~= decimal(m2 as nat) + (seq![d]
                + tail));
        }
        rev.push(d);
        proof {
            tail = seq![d] + tail;
        }
        m = m2;
    }
    let mut out: Vec<u8> = Vec::new();
    out.push(m as u8 + 48);
    proof {
        assert(decimal(m as nat) =~= seq![(m + 48) as u8]);
        assert(out@ =~= seq![(m + 48) as u8] + tail.take(0));
    }
    let mut k: usize = 0;
    while k < rev.len()
        invariant
            rev@.len() == tail.len(),
            forall|j: int| 0 <= j < tail.len() ==> rev@[j] == tail[tail.len() - 1 - j],
            0 <= k <= tail.len(),
            out@ =~= seq![(m + 48) as u8] + tail.take(k as int),
            decimal(n as nat) =~= seq![(m + 48) as u8] + tail,
        decreases rev@.len() - k,
    {
        let c = rev[rev.len() - 1 - k];
        out.push(c);
        proof {
            assert(c == tail[k as int]);
            assert(tail.take(k + 1) =~= tail.take(k as int).push(c));
            assert(out@ =~= seq![(m + 48) as u8] + tail.take(k + 1));
        }
        k = k + 1;
    }
    proof {
        assert(tail.take(tail.len() as int) =~= tail);
        assert(out@ =~= decimal(n as nat));
    }
    out
}

} // verus!
