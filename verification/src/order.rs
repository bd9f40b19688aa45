//! The deterministic order of canonical paths.
//!
//! Two canonical paths are compared first by the length of their byte
//! representation (shorter sorts first) and, on equal length, byte-wise
//! lexicographically.  This is a total order, and since canonical paths are
//! unique, the sorted order of a set of them is unique as well.

use vstd::prelude::*;
use vstd::relations;
use vstd::multiset::Multiset;
use vstd::seq_lib;

verus! {

broadcast use vstd::seq_lib::group_to_multiset_ensures, vstd::multiset::group_multiset_axioms;

/// Byte-wise lexicographic `<=`, the empty sequence first.
pub open spec fn lex_le(a: Seq<u8>, b: Seq<u8>) -> bool
    decreases a.len(),
{
    if a.len() == 0 {
        true
    } else if b.len() == 0 {
        false
    } else if a.first() < b.first() {
        true
    } else if a.first() > b.first() {
        false
    } else {
        lex_le(a.drop_first(), b.drop_first())
    }
}

/// The path order: shorter byte strings first, equal lengths byte-wise
/// lexicographic.
pub open spec fn path_le(a: Seq<u8>, b: Seq<u8>) -> bool {
    a.len() < b.len() || (a.len() == b.len() && lex_le(a, b))
}

/// The byte strings of a sequence of byte vectors.
pub open spec fn views_of(s: Seq<Vec<u8>>) -> Seq<Seq<u8>> {
    Seq::new(s.len(), |i: int| s[i]@)
}

/// True if `s` is ordered by `path_le`.
pub open spec fn paths_sorted(s: Seq<Seq<u8>>) -> bool {
    forall|i: int, j: int| 0 <= i < j < s.len() ==> #[trigger] path_le(s[i], s[j])
}

proof fn lemma_lex_le_refl(a: Seq<u8>)
    ensures
        lex_le(a, a),
    decreases a.len(),
{
    if a.len() > 0 {
        lemma_lex_le_refl(a.drop_first());
    }
}

proof fn lemma_lex_le_total(a: Seq<u8>, b: Seq<u8>)
    ensures
        lex_le(a, b) || lex_le(b, a),
    decreases a.len(),
{
    if a.len() > 0 && b.len() > 0 && a.first() == b.first() {
        lemma_lex_le_total(a.drop_first(), b.drop_first());
    }
}

proof fn lemma_lex_le_antisym(a: Seq<u8>, b: Seq<u8>)
    requires
        a.len() == b.len(),
        lex_le(a, b),
        lex_le(b, a),
    ensures
        a == b,
    decreases a.len(),
{
    if a.len() == 0 {
        assert(a =~= b);
    } else {
        assert(a.first() == b.first());
        lemma_lex_le_antisym(a.drop_first(), b.drop_first());
        assert forall|i: int| 0 <= i < a.len() implies a[i] == b[i] by {
            if i > 0 {
                assert(a[i] == a.drop_first()[i - 1]);
                assert(b[i] == b.drop_first()[i - 1]);
            } else {
                assert(a[0] == a.first());
                assert(b[0] == b.first());
            }
        }
        assert(a =~= b);
    }
}

proof fn lemma_lex_le_trans(a: Seq<u8>, b: Seq<u8>, c: Seq<u8>)
    requires
        a.len() == b.len(),
        b.len() == c.len(),
        lex_le(a, b),
        lex_le(b, c),
    ensures
        lex_le(a, c),
    decreases a.len(),
{
    if a.len() > 0 && a.first() == c.first() {
        assert(a.first() == b.first());
        lemma_lex_le_trans(a.drop_first(), b.drop_first(), c.drop_first());
    }
}

/// `path_le` holds in at least one direction between any two paths.
pub proof fn lemma_path_le_total(a: Seq<u8>, b: Seq<u8>)
    ensures
        path_le(a, b) || path_le(b, a),
{
    if a.len() == b.len() {
        lemma_lex_le_total(a, b);
    }
}

/// `path_le` in both directions forces equality.
pub proof fn lemma_path_le_antisym(a: Seq<u8>, b: Seq<u8>)
    requires
        path_le(a, b),
        path_le(b, a),
    ensures
        a == b,
{
    lemma_lex_le_antisym(a, b);
}

/// `path_le` is transitive.
pub proof fn lemma_path_le_trans(a: Seq<u8>, b: Seq<u8>, c: Seq<u8>)
    requires
        path_le(a, b),
        path_le(b, c),
    ensures
        path_le(a, c),
{
    if a.len() == b.len() && b.len() == c.len() {
        lemma_lex_le_trans(a, b, c);
    }
}

/// `path_le` is reflexive.
pub proof fn lemma_path_le_refl(a: Seq<u8>)
    ensures
        path_le(a, a),
{
    lemma_lex_le_refl(a);
}

/// The path order as a relation value, for vstd's ordering vocabulary.
pub open spec fn path_le_fn() -> spec_fn(Seq<u8>, Seq<u8>) -> bool {
    |a: Seq<u8>, b: Seq<u8>| path_le(a, b)
}

/// `path_le` is a total order.
pub proof fn lemma_path_le_total_ordering()
    ensures
        relations::total_ordering(path_le_fn()),
{
    let r = path_le_fn();
    assert forall|x: Seq<u8>| #[trigger] r(x, x) by {
        lemma_path_le_refl(x);
    }
    assert forall|x: Seq<u8>, y: Seq<u8>| #[trigger] r(x, y) && #[trigger] r(y, x) implies x
        == y by {
        lemma_path_le_antisym(x, y);
    }
    assert forall|x: Seq<u8>, y: Seq<u8>, z: Seq<u8>|
        #[trigger] r(x, y) && #[trigger] r(y, z) implies r(x, z) by {
        lemma_path_le_trans(x, y, z);
    }
    assert forall|x: Seq<u8>, y: Seq<u8>| #[trigger] r(x, y) || #[trigger] r(y, x) by {
        lemma_path_le_total(x, y);
    }
}

/// Ordering determinism: a multiset of canonical paths has exactly one
/// ordering under `path_le`, so the computed order never depends on the
/// order in which the paths arrived.
pub proof fn lemma_order_deterministic(a: Seq<Seq<u8>>, b: Seq<Seq<u8>>)
    requires
        paths_sorted(a),
        paths_sorted(b),
        a.to_multiset() == b.to_multiset(),
    ensures
        a == b,
{
    lemma_path_le_total_ordering();
    let r = path_le_fn();
    assert(relations::sorted_by(a, r));
    assert(relations::sorted_by(b, r));
    seq_lib::lemma_sorted_unique(a, b, r);
    assert(a =~= b);
}

/// Decide `path_le` on byte vectors.
pub fn path_le_exec(a: &Vec<u8>, b: &Vec<u8>) -> (r: bool)
    ensures
        r == path_le(a@, b@),
{
    if a.len() < b.len() {
        return true;
    }
    if a.len() > b.len() {
        return false;
    }
    let n = a.len();
    let mut i: usize = 0;
    proof {
        assert(a@.skip(0) =~= a@);
        assert(b@.skip(0) =~= b@);
    }
    while i < n
        invariant
            n == a@.len(),
            n == b@.len(),
            i <= n,
            lex_le(a@, b@) == lex_le(a@.skip(i as int), b@.skip(i as int)),
        decreases n - i,
    {
        if a[i] < b[i] {
            return true;
        }
        if a[i] > b[i] {
            return false;
        }
        proof {
            assert(a@.skip(i as int).drop_first() =~= a@.skip(i + 1));
            assert(b@.skip(i as int).drop_first() =~= b@.skip(i + 1));
        }
        i = i + 1;
    }
    true
}

/// Index of a least path of a non-empty list, under `path_le`.
fn find_min_idx(v: &Vec<Vec<u8>>) -> (r: usize)
    requires
        v@.len() > 0,
    ensures
        r < v@.len(),
        forall|j: int| 0 <= j < v@.len() ==> path_le(v@[r as int]@, #[trigger] v@[j]@),
{
    let mut best: usize = 0;
    let mut i: usize = 1;
    proof {
        lemma_path_le_refl(v@[0]@);
    }
    while i < v.len()
        invariant
            best < i <= v@.len(),
            forall|j: int| 0 <= j < i ==> path_le(v@[best as int]@, #[trigger] v@[j]@),
        decreases v@.len() - i,
    {
        if path_le_exec(&v[i], &v[best]) {
            proof {
                assert forall|j: int| 0 <= j < i + 1 implies path_le(
                    v@[i as int]@,
                    #[trigger] v@[j]@,
                ) by {
                    if j < i {
                        lemma_path_le_trans(v@[i as int]@, v@[best as int]@, v@[j]@);
                    } else {
                        lemma_path_le_refl(v@[i as int]@);
                    }
                }
            }
            best = i;
        } else {
            proof {
                lemma_path_le_total(v@[i as int]@, v@[best as int]@);
            }
        }
        i = i + 1;
    }
    best
}

/// Sort canonical paths into the deterministic order: shorter byte strings
/// first, ties broken byte-wise.  The result is exactly a permutation of
/// the input, in sorted order.
pub fn sort_paths(input: Vec<Vec<u8>>) -> (r: Vec<Vec<u8>>)
    ensures
        r@.len() == input@.len(),
        paths_sorted(views_of(r@)),
        views_of(r@).to_multiset() == views_of(input@).to_multiset(),
{
    let mut rem = input;
    let mut out: Vec<Vec<u8>> = Vec::new();
    let ghost all = views_of(rem@);
    proof {
        assert(views_of(out@) =~= Seq::<Seq<u8>>::empty());
        assert(views_of(out@).to_multiset().add(views_of(rem@).to_multiset()) =~= views_of(
            rem@,
        ).to_multiset());
    }
    while rem.len() > 0
        invariant
            out@.len() + rem@.len() == all.len(),
            paths_sorted(views_of(out@)),
            forall|i: int, j: int|
                0 <= i < out@.len() && 0 <= j < rem@.len() ==> path_le(
                    #[trigger] out@[i]@,
                    #[trigger] rem@[j]@,
                ),
            views_of(out@).to_multiset().add(views_of(rem@).to_multiset()) == all.to_multiset(),
        decreases rem@.len(),
    {
        let mi = find_min_idx(&rem);
        let ghost old_out = out@;
        let ghost old_rem = rem@;
        let x = rem.remove(mi);
        out.push(x);
        proof {
            let xv = x@;
            assert(views_of(rem@) =~= views_of(old_rem).remove(mi as int));
            assert(views_of(out@) =~= views_of(old_out).push(xv));
            let ms_out = views_of(old_out).to_multiset();
            let ms_rem = views_of(old_rem).to_multiset();
            assert(views_of(old_rem)[mi as int] == xv);
            assert(views_of(old_rem).contains(xv));
            assert(ms_rem.count(xv) > 0);
            assert(views_of(out@).to_multiset() =~= ms_out.insert(xv));
            assert(views_of(rem@).to_multiset() =~= ms_rem.remove(xv));
            assert(ms_out.insert(xv).add(ms_rem.remove(xv)) =~= ms_out.add(ms_rem));
            // the popped minimum stays below everything still unsorted
            assert forall|i: int, j: int|
                0 <= i < out@.len() && 0 <= j < rem@.len() implies path_le(
                #[trigger] out@[i]@,
                #[trigger] rem@[j]@,
            ) by {
                if i < out@.len() - 1 {
                    assert(out@[i] == old_out[i]);
                }
            }
        }
    }
    proof {
        assert(views_of(rem@).to_multiset().len() == 0);
        assert(views_of(rem@).to_multiset() =~= Multiset::empty());
        assert(views_of(out@).to_multiset() =~= all.to_multiset());
    }
    out
}

} // verus!
