//! Small verified helpers on byte vectors: search, comparison, and
//! removal of a fixed pattern. Paths, log lines and application names are
//! all byte strings to the engine.

use vstd::prelude::*;

verus! {

/// Smallest index `j` with `i <= j < s.len()` and `s[j] == b`, or `s.len()`
/// if no such index exists.
pub open spec fn index_of_from(s: Seq<u8>, b: u8, i: int) -> int
    decreases s.len() - i,
{
    if i < 0 || i >= s.len() {
        s.len() as int
    } else if s[i] == b {
        i
    } else {
        index_of_from(s, b, i + 1)
    }
}

pub proof fn lemma_index_of_from(s: Seq<u8>, b: u8, i: int)
    requires
        0 <= i <= s.len(),
    ensures
        i <= index_of_from(s, b, i) <= s.len(),
        index_of_from(s, b, i) < s.len() ==> s[index_of_from(s, b, i)] == b,
        forall|k: int| i <= k < index_of_from(s, b, i) ==> s[k] != b,
    decreases s.len() - i,
{
    if i < s.len() && s[i] != b {
        lemma_index_of_from(s, b, i + 1);
    }
}

/// Pinpoints `index_of_from`: if nothing in `[i, j)` is `b`, and `j` is
/// either the end of `s` or an occurrence of `b`, the search from `i` ends
/// exactly at `j`.
pub proof fn lemma_index_of_from_eq(s: Seq<u8>, b: u8, i: int, j: int)
    requires
        0 <= i <= j <= s.len(),
        forall|k: int| i <= k < j ==> s[k] != b,
        j < s.len() ==> s[j] == b,
    ensures
        index_of_from(s, b, i) == j,
    decreases j - i,
{
    if i < j {
        lemma_index_of_from_eq(s, b, i + 1, j);
    }
}

/// Copies `s[a..b]` into a fresh vector.
pub fn copy_range(s: &Vec<u8>, a: usize, b: usize) -> (r: Vec<u8>)
    requires
        a <= b <= s@.len(),
    ensures
        r@ == s@.subrange(a as int, b as int),
{
    let mut out: Vec<u8> = Vec::new();
    let mut j: usize = a;
    while j < b
        invariant
            a <= j <= b <= s@.len(),
            out@ =~= s@.subrange(a as int, j as int),
        decreases b - j,
    {
        let c = s[j];
        out.push(c);
        proof {
            assert(out@ =~= s@.subrange(a as int, j + 1));
        }
        j = j + 1;
    }
    out
}

/// First occurrence of `b` in `s` at or after `start`.
pub fn find_byte_from(s: &Vec<u8>, b: u8, start: usize) -> (r: usize)
    requires
        start <= s@.len(),
    ensures
        r == index_of_from(s@, b, start as int),
{
    let mut j: usize = start;
    while j < s.len()
        invariant
            start <= j <= s@.len(),
            index_of_from(s@, b, start as int) == index_of_from(s@, b, j as int),
        decreases s@.len() - j,
    {
        if s[j] == b {
            return j;
        }
        j = j + 1;
    }
    j
}

/// Byte-vector equality, decided element by element.
pub fn vec_u8_eq(a: &Vec<u8>, b: &Vec<u8>) -> (r: bool)
    ensures
        r == (a@ == b@),
{
    if a.len() != b.len() {
        return false;
    }
    let mut i: usize = 0;
    while i < a.len()
        invariant
            a@.len() == b@.len(),
            0 <= i <= a@.len(),
            forall|k: int| 0 <= k < i ==> a@[k] == b@[k],
        decreases a@.len() - i,
    {
        if a[i] != b[i] {
            return false;
        }
        i = i + 1;
    }
    proof {
        assert(a@ =~= b@);
    }
    true
}

/// Does `pat` occur in `s` starting exactly at index `i`?
pub fn match_at(s: &Vec<u8>, i: usize, pat: &Vec<u8>) -> (r: bool)
    requires
        i + pat@.len() <= s@.len(),
    ensures
        r == (s@.subrange(i as int, i + pat@.len()) == pat@),
{
    let mut k: usize = 0;
    while k < pat.len()
        invariant
            i + pat@.len() <= s@.len(),
            0 <= k <= pat@.len(),
            forall|m: int| 0 <= m < k ==> s@[i + m] == pat@[m],
        decreases pat@.len() - k,
    {
        proof {
            vstd::std_specs::vec::axiom_spec_len(s);
            assert(i + k < s@.len());
        }
        if s[i + k] != pat[k] {
            proof {
                assert(s@.subrange(i as int, i + pat@.len())[k as int] != pat@[k as int]);
            }
            return false;
        }
        k = k + 1;
    }
    proof {
        assert(s@.subrange(i as int, i + pat@.len()) =~= pat@);
    }
    true
}

/// `s` with every leftmost, non-overlapping occurrence of `pat` removed.
pub open spec fn remove_all(s: Seq<u8>, pat: Seq<u8>) -> Seq<u8>
    decreases s.len(),
{
    if pat.len() == 0 || s.len() < pat.len() {
        s
    } else if s.take(pat.len() as int) == pat {
        remove_all(s.skip(pat.len() as int), pat)
    } else {
        seq![s[0]] + remove_all(s.drop_first(), pat)
    }
}

/// Removes every leftmost, non-overlapping occurrence of `pat` from `s`.
pub fn remove_all_bytes(s: &Vec<u8>, pat: &Vec<u8>) -> (r: Vec<u8>)
    requires
        pat@.len() >= 1,
    ensures
        r@ == remove_all(s@, pat@),
{
    let mut out: Vec<u8> = Vec::new();
    let mut i: usize = 0;
    proof {
        assert(s@.skip(0) =~= s@);
        assert(out@ + remove_all(s@, pat@) =~= remove_all(s@, pat@));
    }
    while i < s.len()
        invariant
            pat@.len() >= 1,
            0 <= i <= s@.len(),
            remove_all(s@, pat@) == out@ + remove_all(s@.skip(i as int), pat@),
        decreases s@.len() - i,
    {
        if pat.len() <= s.len() - i && match_at(s, i, pat) {
            proof {
                assert(s@.skip(i as int).take(pat@.len() as int) =~= s@.subrange(
                    i as int,
                    i + pat@.len(),
                ));
                assert(s@.skip(i as int).skip(pat@.len() as int) =~= s@.skip(
                    i + pat@.len(),
                ));
            }
            i = i + pat.len();
        } else {
            proof {
                let rest = s@.skip(i as int);
                assert(rest.drop_first() =~= s@.skip(i + 1));
                if pat@.len() <= rest.len() {
                    assert(rest.take(pat@.len() as int) =~= s@.subrange(
                        i as int,
                        i + pat@.len(),
                    ));
                }
                assert(remove_all(rest, pat@) =~= seq![s@[i as int]] + remove_all(
                    s@.skip(i + 1),
                    pat@,
                ) || remove_all(rest, pat@) =~= rest);
            }
            let c = s[i];
            out.push(c);
            proof {
                let rest = s@.skip(i as int);
                if rest.len() < pat@.len() {
                    assert(remove_all(rest, pat@) == rest);
                    assert(s@.skip(i + 1).len() < pat@.len());
                    assert(remove_all(s@.skip(i + 1), pat@) == s@.skip(i + 1));
                    assert(rest =~= seq![s@[i as int]] + s@.skip(i + 1));
                }
                assert(out@ + remove_all(s@.skip(i + 1), pat@) =~= remove_all(s@, pat@));
            }
            i = i + 1;
        }
    }
    proof {
        assert(s@.skip(i as int) =~= Seq::<u8>::empty());
        assert(remove_all(Seq::<u8>::empty(), pat@) == Seq::<u8>::empty());
        assert(out@ + Seq::<u8>::empty() =~= out@);
    }
    out
}

} // verus!
