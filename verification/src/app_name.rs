//! Application identity: the display name derived from an executable path.
//!
//! A path under the applications directory names the bundle directly under
//! it, with any `.app` suffix removed; any other path names the file's base
//! name, with any `.exe` suffix removed. Two paths with the same derived
//! name count as the same application.

use crate::bytes::copy_range;
use crate::bytes::remove_all;
use crate::bytes::remove_all_bytes;
use crate::bytes::vec_u8_eq;
use vstd::prelude::*;

verus! {

/// The fields of `s` between occurrences of `sep`, in order; empty fields
/// included. Splitting the empty string gives one empty field.
pub open spec fn split_bytes(s: Seq<u8>, sep: u8) -> Seq<Seq<u8>>
    decreases s.len(),
{
    if s.len() == 0 {
        seq![Seq::empty()]
    } else {
        let rest = split_bytes(s.drop_first(), sep);
        if s[0] == sep {
            seq![Seq::<u8>::empty()] + rest
        } else {
            seq![seq![s[0]] + rest[0]] + rest.drop_first()
        }
    }
}

pub proof fn lemma_split_nonempty(s: Seq<u8>, sep: u8)
    ensures
        split_bytes(s, sep).len() >= 1,
    decreases s.len(),
{
    if s.len() > 0 {
        lemma_split_nonempty(s.drop_first(), sep);
    }
}

/// A path component that counts: nonempty and not the `.` marker.
pub open spec fn keeps_segment(seg: Seq<u8>) -> bool {
    seg.len() > 0 && seg != seq![46u8]
}

pub open spec fn filter_segments(fields: Seq<Seq<u8>>) -> Seq<Seq<u8>>
    decreases fields.len(),
{
    if fields.len() == 0 {
        Seq::empty()
    } else {
        let rest = filter_segments(fields.drop_last());
        if keeps_segment(fields.last()) {
            rest.push(fields.last())
        } else {
            rest
        }
    }
}

pub open spec fn dot() -> Seq<u8> {
    seq![46u8]
}

/// The normalized components of a path: root and `.` markers dropped —
/// except a `.` leading a relative path, which stays a component of its
/// own.
pub open spec fn spec_segments(p: Seq<u8>) -> Seq<Seq<u8>> {
    let fields = split_bytes(p, 47);
    if fields[0] == dot() {
        seq![dot()] + filter_segments(fields.drop_first())
    } else {
        filter_segments(fields)
    }
}

pub open spec fn applications_seg() -> Seq<u8> {
    seq![65u8, 112, 112, 108, 105, 99, 97, 116, 105, 111, 110, 115]
}

pub open spec fn dot_app() -> Seq<u8> {
    seq![46u8, 97, 112, 112]
}

pub open spec fn dot_exe() -> Seq<u8> {
    seq![46u8, 101, 120, 101]
}

pub open spec fn dot_dot() -> Seq<u8> {
    seq![46u8, 46]
}

pub open spec fn unknown_name() -> Seq<u8> {
    seq![85u8, 110, 107, 110, 111, 119, 110]
}

/// The derived display name of the application at `p`, if the path yields
/// one: the segment directly under an absolute `/Applications` (or the
/// segment after a relative `Applications` component) with `.app` removed;
/// otherwise the base name with `.exe` removed; no name for a bare
/// applications directory, an empty path, or a path ending in `..` or
/// amounting to `.`.
pub open spec fn spec_app_name(p: Seq<u8>) -> Option<Seq<u8>> {
    let segs = spec_segments(p);
    let absolute = p.len() > 0 && p[0] == 47;
    if absolute && segs.len() >= 1 && segs[0] == applications_seg() {
        if segs.len() >= 2 {
            Some(remove_all(segs[1], dot_app()))
        } else {
            None
        }
    } else if !absolute && segs.len() >= 2 && segs[1] == applications_seg() {
        if segs.len() >= 3 {
            Some(remove_all(segs[2], dot_app()))
        } else {
            None
        }
    } else if segs.len() >= 1 && segs.last() != dot_dot() && segs.last() != dot() {
        Some(remove_all(segs.last(), dot_exe()))
    } else {
        None
    }
}

/// The name under which an event's path is aggregated: the derived display
/// name, or `Unknown` when the path yields none.
pub open spec fn spec_display_name(p: Seq<u8>) -> Seq<u8> {
    match spec_app_name(p) {
        Some(n) => n,
        None => unknown_name(),
    }
}

pub open spec fn views_of(v: Seq<Vec<u8>>) -> Seq<Seq<u8>> {
    v.map_values(|x: Vec<u8>| x@)
}

pub open spec fn opt_bytes_view(r: Option<Vec<u8>>) -> Option<Seq<u8>> {
    match r {
        Some(v) => Some(v@),
        None => None,
    }
}

fn path_split(p: &Vec<u8>) -> (fields: Vec<Vec<u8>>)
    ensures
        views_of(fields@) == split_bytes(p@, 47),
{
    let mut fields: Vec<Vec<u8>> = Vec::new();
    let mut cur: Vec<u8> = Vec::new();
    let mut i: usize = 0;
    proof {
        assert(p@.skip(0) =~= p@);
        lemma_split_nonempty(p@, 47);
        let s = split_bytes(p@, 47);
        assert(views_of(fields@) + seq![cur@ + s[0]] + s.drop_first() =~= seq![s[0]]
            + s.drop_first());
        assert(seq![s[0]] + s.drop_first() =~= s);
    }
    while i < p.len()
        invariant
            0 <= i <= p@.len(),
            split_bytes(p@, 47) =~= views_of(fields@) + seq![cur@ + split_bytes(
                p@.skip(i as int),
                47,
            )[0]] + split_bytes(p@.skip(i as int), 47).drop_first(),
        decreases p@.len() - i,
    {
        let ghost r = split_bytes(p@.skip(i as int), 47);
        let ghost r2 = split_bytes(p@.skip(i + 1), 47);
        proof {
            lemma_split_nonempty(p@.skip(i + 1), 47);
            assert(p@.skip(i as int).drop_first() =~= p@.skip(i + 1));
            assert(p@.skip(i as int)[0] == p@[i as int]);
        }
        if p[i] == 47 {
            proof {
                assert(r =~= seq![Seq::<u8>::empty()] + r2);
                assert(r[0] =~= Seq::<u8>::empty());
                assert(r.drop_first() =~= r2);
                assert(cur@ + r[0] =~= cur@);
                assert(r2 =~= seq![r2[0]] + r2.drop_first());
                assert(views_of(fields@.push(cur)) =~= views_of(fields@).push(cur@));
            }
            fields.push(cur);
            cur = Vec::new();
            proof {
                assert(split_bytes(p@, 47) =~= views_of(fields@) + seq![cur@ + r2[0]]
                    + r2.drop_first());
            }
        } else {
            let c = p[i];
            proof {
                assert(r =~= seq![seq![p@[i as int]] + r2[0]] + r2.drop_first());
                assert(r[0] =~= seq![p@[i as int]] + r2[0]);
                assert(r.drop_first() =~= r2.drop_first());
                assert(cur@.push(c) + r2[0] =~= cur@ + r[0]);
            }
            cur.push(c);
            proof {
                assert(split_bytes(p@, 47) =~= views_of(fields@) + seq![cur@ + r2[0]]
                    + r2.drop_first());
            }
        }
        i = i + 1;
    }
    proof {
        let r = split_bytes(p@.skip(i as int), 47);
        assert(p@.skip(i as int) =~= Seq::<u8>::empty());
        assert(r =~= seq![Seq::<u8>::empty()]);
        assert(cur@ + r[0] =~= cur@);
        assert(r.drop_first() =~= Seq::<Seq<u8>>::empty());
        assert(views_of(fields@.push(cur)) =~= views_of(fields@).push(cur@));
        assert(views_of(fields@).push(cur@) =~= views_of(fields@) + seq![cur@ + r[0]]
            + r.drop_first());
    }
    fields.push(cur);
    fields
}

/// The normalized components of `p`: what stands between the slashes,
/// empty and `.` components dropped, but a `.` leading a relative path
/// kept.
pub fn path_segments(p: &Vec<u8>) -> (segs: Vec<Vec<u8>>)
    ensures
        views_of(segs@) == spec_segments(p@),
{
    let fields = path_split(p);
    proof {
        lemma_split_nonempty(p@, 47);
    }
    let mut segs: Vec<Vec<u8>> = Vec::new();
    let mut i: usize = 0;
    let leading_dot = fields[0].len() == 1 && fields[0][0] == 46;
    proof {
        if leading_dot {
            assert(views_of(fields@)[0] =~= dot());
        } else if views_of(fields@)[0] == dot() {
            assert(fields@[0]@.len() == 1 && fields@[0]@[0] == 46);
        }
    }
    if leading_dot {
        let mut d: Vec<u8> = Vec::new();
        d.push(46);
        proof {
            assert(d@ =~= dot());
        }
        segs.push(d);
        i = 1;
        proof {
            assert(views_of(segs@) =~= seq![dot()]);
        }
    }
    let ghost s0: int = if leading_dot {
        1
    } else {
        0
    };
    let ghost head: Seq<Seq<u8>> = if leading_dot {
        seq![dot()]
    } else {
        Seq::empty()
    };
    proof {
        let fv = views_of(fields@);
        assert(fv.subrange(s0, s0) =~= Seq::<Seq<u8>>::empty());
        assert(filter_segments(Seq::<Seq<u8>>::empty()) =~= Seq::<Seq<u8>>::empty());
        assert(views_of(segs@) =~= head + filter_segments(fv.subrange(s0, s0)));
    }
    while i < fields.len()
        invariant
            s0 == (if split_bytes(p@, 47)[0] == dot() {
                1int
            } else {
                0int
            }),
            head == (if s0 == 1 {
                seq![dot()]
            } else {
                Seq::<Seq<u8>>::empty()
            }),
            s0 <= i <= fields@.len(),
            views_of(fields@) == split_bytes(p@, 47),
            views_of(segs@) =~= head + filter_segments(
                views_of(fields@).subrange(s0, i as int),
            ),
        decreases fields@.len() - i,
    {
        let ghost fv = views_of(fields@);
        proof {
            assert(fv.subrange(s0, i + 1).drop_last() =~= fv.subrange(s0, i as int));
            assert(fv.subrange(s0, i + 1).last() == fields@[i as int]@);
        }
        let keep = fields[i].len() > 0 && !(fields[i].len() == 1 && fields[i][0] == 46);
        proof {
            if fields@[i as int]@.len() == 1 && fields@[i as int]@[0] == 46 {
                assert(fields@[i as int]@ =~= seq![46u8]);
            }
            if fields@[i as int]@ == seq![46u8] {
                assert(fields@[i as int]@.len() == 1 && fields@[i as int]@[0] == 46);
            }
            assert(keep == keeps_segment(fields@[i as int]@));
        }
        if keep {
            let seg = copy_range(&fields[i], 0, fields[i].len());
            proof {
                assert(seg@ =~= fields@[i as int]@);
                assert(views_of(segs@.push(seg)) =~= views_of(segs@).push(seg@));
            }
            segs.push(seg);
        }
        i = i + 1;
    }
    proof {
        let fv = views_of(fields@);
        if s0 == 1 {
            assert(fv.subrange(1, fields@.len() as int) =~= fv.drop_first());
        } else {
            assert(fv.subrange(0, fields@.len() as int) =~= fv);
        }
    }
    segs
}

/// Derives the display name of the application at `path`, if any.
pub fn get_app_name_from_path(path: &Vec<u8>) -> (r: Option<Vec<u8>>)
    ensures
        opt_bytes_view(r) == spec_app_name(path@),
{
    let segs = path_segments(path);
    let absolute = path.len() > 0 && path[0] == 47;
    let mut apps: Vec<u8> = Vec::new();
    apps.push(65);
    apps.push(112);
    apps.push(112);
    apps.push(108);
    apps.push(105);
    apps.push(99);
    apps.push(97);
    apps.push(116);
    apps.push(105);
    apps.push(111);
    apps.push(110);
    apps.push(115);
    proof {
        assert(apps@ =~= applications_seg());
    }
    let mut pat_app: Vec<u8> = Vec::new();
    pat_app.push(46);
    pat_app.push(97);
    pat_app.push(112);
    pat_app.push(112);
    proof {
        assert(pat_app@ =~= dot_app());
    }
    if absolute && segs.len() >= 1 && vec_u8_eq(&segs[0], &apps) {
        if segs.len() >= 2 {
            Some(remove_all_bytes(&segs[1], &pat_app))
        } else {
            None
        }
    } else if !absolute && segs.len() >= 2 && vec_u8_eq(&segs[1], &apps) {
        if segs.len() >= 3 {
            Some(remove_all_bytes(&segs[2], &pat_app))
        } else {
            None
        }
    } else {
        let mut dots: Vec<u8> = Vec::new();
        dots.push(46);
        dots.push(46);
        proof {
            assert(dots@ =~= dot_dot());
        }
        let mut one_dot: Vec<u8> = Vec::new();
        one_dot.push(46);
        proof {
            assert(one_dot@ =~= dot());
        }
        if segs.len() >= 1 && !vec_u8_eq(&segs[segs.len() - 1], &dots) && !vec_u8_eq(
            &segs[segs.len() - 1],
            &one_dot,
        ) {
            let mut pat_exe: Vec<u8> = Vec::new();
            pat_exe.push(46);
            pat_exe.push(101);
            pat_exe.push(120);
            pat_exe.push(101);
            proof {
                assert(pat_exe@ =~= dot_exe());
                assert(segs@[segs@.len() - 1]@ == spec_segments(path@).last());
            }
            Some(remove_all_bytes(&segs[segs.len() - 1], &pat_exe))
        } else {
            None
        }
    }
}

/// The name under which a path is aggregated: the derived display name,
/// or `Unknown` when the path yields none.
pub fn display_name_from_path(path: &Vec<u8>) -> (r: Vec<u8>)
    ensures
        r@ == spec_display_name(path@),
{
    match get_app_name_from_path(path) {
        Some(n) => n,
        None => {
            let mut u: Vec<u8> = Vec::new();
            u.push(85);
            u.push(110);
            u.push(107);
            u.push(110);
            u.push(111);
            u.push(119);
            u.push(110);
            proof {
                assert(u@ =~= unknown_name());
            }
            u
        },
    }
}

} // verus!
