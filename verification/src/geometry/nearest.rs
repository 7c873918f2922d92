//! The nearest of a sequence of crossings, and why it does not depend on the
//! order of the sequence.
use vstd::prelude::*;
use crate::geometry::HitView;

verus! {

/// The crossing at index `i` exists and its parameter lies strictly between
/// `lo` and `hi`.
pub open spec fn inside(cs: Seq<HitView>, lo: int, hi: int, i: int) -> bool {
    0 <= i < cs.len() && lo < cs[i].t < hi
}

/// The crossing at index `i` is the nearest one inside `(lo, hi)`: no other
/// has a smaller parameter, and none before it has the same.
pub open spec fn is_nearest(cs: Seq<HitView>, lo: int, hi: int, i: int) -> bool {
    inside(cs, lo, hi, i) && forall|j: int| #[trigger]
        inside(cs, lo, hi, j) ==> cs[i].t < cs[j].t || (cs[i].t == cs[j].t && i <= j)
}

/// The crossing with the smallest parameter strictly between `lo` and `hi`,
/// the first of them where several share it; `None` where there is none.
pub open spec fn nearest(cs: Seq<HitView>, lo: int, hi: int) -> Option<HitView> {
    if exists|i: int| is_nearest(cs, lo, hi, i) {
        Some(cs[choose|i: int| is_nearest(cs, lo, hi, i)])
    } else {
        None
    }
}

/// Among the first `n` crossings, finds the nearest one inside `(lo, hi)`, or
/// `-1` where none of them is inside.
proof fn lemma_prefix_nearest(cs: Seq<HitView>, lo: int, hi: int, n: nat) -> (b: int)
    requires
        n <= cs.len(),
    ensures
        -1 <= b < n,
        b == -1 ==> forall|j: int| 0 <= j < n ==> !#[trigger] inside(cs, lo, hi, j),
        b >= 0 ==> inside(cs, lo, hi, b) && forall|j: int|
            0 <= j < n && #[trigger] inside(cs, lo, hi, j) ==> cs[b].t < cs[j].t || (cs[b].t
                == cs[j].t && b <= j),
    decreases n,
{
    if n == 0 {
        -1
    } else {
        let p = lemma_prefix_nearest(cs, lo, hi, (n - 1) as nat);
        let i = n - 1;
        if inside(cs, lo, hi, i) && (p == -1 || cs[i].t < cs[p].t) {
            i
        } else {
            p
        }
    }
}

/// Two nearest crossings are the same one.
pub proof fn lemma_nearest_unique(cs: Seq<HitView>, lo: int, hi: int, i: int, j: int)
    requires
        is_nearest(cs, lo, hi, i),
        is_nearest(cs, lo, hi, j),
    ensures
        i == j,
{
}

/// What [`nearest`] returns: nothing exactly when no crossing is inside, and
/// otherwise the crossing at the one index that [`is_nearest`] accepts.
pub proof fn lemma_nearest(cs: Seq<HitView>, lo: int, hi: int)
    ensures
        nearest(cs, lo, hi) is None <==> forall|j: int| !#[trigger] inside(cs, lo, hi, j),
        nearest(cs, lo, hi) is Some ==> exists|i: int|
            is_nearest(cs, lo, hi, i) && nearest(cs, lo, hi) == Some(cs[i]),
        forall|i: int| is_nearest(cs, lo, hi, i) ==> nearest(cs, lo, hi) == Some(cs[i]),
{
    let b = lemma_prefix_nearest(cs, lo, hi, cs.len());
    if b >= 0 {
        assert(is_nearest(cs, lo, hi, b));
    }
    if nearest(cs, lo, hi) is Some {
        let w = choose|i: int| is_nearest(cs, lo, hi, i);
        assert(is_nearest(cs, lo, hi, w) && nearest(cs, lo, hi) == Some(cs[w]));
    }
    assert forall|i: int| is_nearest(cs, lo, hi, i) implies nearest(cs, lo, hi) == Some(
        cs[i],
    ) by {
        let w = choose|i: int| is_nearest(cs, lo, hi, i);
        lemma_nearest_unique(cs, lo, hi, i, w);
    }
}

/// The nearest crossing lies inside the bounds, and no crossing inside them
/// has a smaller parameter.
pub proof fn lemma_nearest_is_least(cs: Seq<HitView>, lo: int, hi: int)
    requires
        nearest(cs, lo, hi) is Some,
    ensures
        lo < nearest(cs, lo, hi).unwrap().t < hi,
        cs.contains(nearest(cs, lo, hi).unwrap()),
        forall|j: int| #[trigger]
            inside(cs, lo, hi, j) ==> nearest(cs, lo, hi).unwrap().t <= cs[j].t,
{
    lemma_nearest(cs, lo, hi);
    let i = choose|i: int| is_nearest(cs, lo, hi, i) && nearest(cs, lo, hi) == Some(cs[i]);
    assert(inside(cs, lo, hi, i));
}

/// The nearest crossing of two sequences joined: the nearest of the first,
/// unless the second has one before it.
pub proof fn lemma_nearest_concat(a: Seq<HitView>, b: Seq<HitView>, lo: int, hi: int)
    ensures
        nearest(a + b, lo, hi) == match nearest(a, lo, hi) {
            None => nearest(b, lo, hi),
            Some(first) => match nearest(b, lo, first.t) {
                Some(second) => Some(second),
                None => Some(first),
            },
        },
{
    let ab = a + b;
    lemma_nearest(a, lo, hi);
    lemma_nearest(ab, lo, hi);
    assert forall|j: int| 0 <= j < a.len() implies ab[j] == a[j] by {}
    assert forall|j: int| a.len() <= j < ab.len() implies ab[j] == b[j - a.len()] by {}
    match nearest(a, lo, hi) {
        None => {
            lemma_nearest(b, lo, hi);
            if nearest(b, lo, hi) is Some {
                let k = choose|k: int|
                    is_nearest(b, lo, hi, k) && nearest(b, lo, hi) == Some(b[k]);
                let m = k + a.len();
                assert(inside(ab, lo, hi, m));
                assert forall|j: int| #[trigger] inside(ab, lo, hi, j) implies ab[m].t
                    < ab[j].t || (ab[m].t == ab[j].t && m <= j) by {
                    if j < a.len() {
                        assert(inside(a, lo, hi, j));
                    } else {
                        assert(inside(b, lo, hi, j - a.len()));
                    }
                }
                assert(is_nearest(ab, lo, hi, m));
            } else {
                assert forall|j: int| !#[trigger] inside(ab, lo, hi, j) by {
                    if inside(ab, lo, hi, j) {
                        if j < a.len() {
                            assert(inside(a, lo, hi, j));
                        } else {
                            assert(inside(b, lo, hi, j - a.len()));
                        }
                    }
                }
            }
        },
        Some(first) => {
            let i = choose|i: int| is_nearest(a, lo, hi, i) && nearest(a, lo, hi) == Some(a[i]);
            lemma_nearest(b, lo, first.t);
            if nearest(b, lo, first.t) is Some {
                let k = choose|k: int|
                    is_nearest(b, lo, first.t, k) && nearest(b, lo, first.t) == Some(b[k]);
                let m = k + a.len();
                assert(inside(ab, lo, hi, m));
                assert forall|j: int| #[trigger] inside(ab, lo, hi, j) implies ab[m].t
                    < ab[j].t || (ab[m].t == ab[j].t && m <= j) by {
                    if j < a.len() {
                        assert(inside(a, lo, hi, j));
                    } else {
                        let jb = j - a.len();
                        if b[jb].t < first.t {
                            assert(inside(b, lo, first.t, jb));
                        }
                    }
                }
                assert(is_nearest(ab, lo, hi, m));
            } else {
                assert(inside(ab, lo, hi, i));
                assert forall|j: int| #[trigger] inside(ab, lo, hi, j) implies ab[i].t
                    < ab[j].t || (ab[i].t == ab[j].t && i <= j) by {
                    if j < a.len() {
                        assert(inside(a, lo, hi, j));
                    } else {
                        let jb = j - a.len();
                        if b[jb].t < first.t {
                            assert(inside(b, lo, first.t, jb));
                        }
                    }
                }
                assert(is_nearest(ab, lo, hi, i));
            }
        },
    }
}

/// Two sequences that hold the same crossings, in whatever order and number,
/// agree on whether anything is hit and on the parameter of the nearest hit.
pub proof fn lemma_nearest_parameter_unordered(
    a: Seq<HitView>,
    b: Seq<HitView>,
    lo: int,
    hi: int,
)
    requires
        forall|c: HitView| a.contains(c) <==> b.contains(c),
    ensures
        nearest(a, lo, hi) is Some <==> nearest(b, lo, hi) is Some,
        nearest(a, lo, hi) is Some ==> nearest(a, lo, hi).unwrap().t == nearest(
            b,
            lo,
            hi,
        ).unwrap().t,
{
    lemma_one_sided(a, b, lo, hi);
    lemma_one_sided(b, a, lo, hi);
}

/// Where every crossing of `a` also occurs in `b`, a hit in `a` means a hit in
/// `b` that is at least as near.
proof fn lemma_one_sided(a: Seq<HitView>, b: Seq<HitView>, lo: int, hi: int)
    requires
        forall|c: HitView| a.contains(c) ==> b.contains(c),
    ensures
        nearest(a, lo, hi) is Some ==> nearest(b, lo, hi) is Some && nearest(
            b,
            lo,
            hi,
        ).unwrap().t <= nearest(a, lo, hi).unwrap().t,
{
    if nearest(a, lo, hi) is Some {
        lemma_nearest_is_least(a, lo, hi);
        let c = nearest(a, lo, hi).unwrap();
        assert(b.contains(c));
        let j = choose|j: int| 0 <= j < b.len() && b[j] == c;
        assert(inside(b, lo, hi, j));
        lemma_nearest(b, lo, hi);
        lemma_nearest_is_least(b, lo, hi);
    }
}

/// Two sequences that hold the same crossings return the same nearest hit,
/// provided that crossings inside the bounds with equal parameters are equal.
pub proof fn lemma_nearest_unordered(a: Seq<HitView>, b: Seq<HitView>, lo: int, hi: int)
    requires
        forall|c: HitView| a.contains(c) <==> b.contains(c),
        forall|i: int, j: int|
            inside(a, lo, hi, i) && inside(a, lo, hi, j) && a[i].t == a[j].t ==> a[i] == a[j],
    ensures
        nearest(a, lo, hi) == nearest(b, lo, hi),
{
    lemma_nearest_parameter_unordered(a, b, lo, hi);
    if nearest(a, lo, hi) is Some {
        lemma_nearest_is_least(a, lo, hi);
        lemma_nearest_is_least(b, lo, hi);
        let ca = nearest(a, lo, hi).unwrap();
        let cb = nearest(b, lo, hi).unwrap();
        assert(a.contains(cb));
        let i = choose|i: int| 0 <= i < a.len() && a[i] == ca;
        let j = choose|j: int| 0 <= j < a.len() && a[j] == cb;
        assert(inside(a, lo, hi, i) && inside(a, lo, hi, j));
    }
}

} // verus!
