//! Rename plan construction.
//!
//! Every source path is mapped to a target in the same directory whose base
//! name is its assigned index, zero-padded to the common width, keeping the
//! source's extension if it has a non-empty one.  The plan lists its entries
//! by descending index — the reverse of assignment order — so that applying
//! it never renames onto a name a not-yet-processed source still holds.

use crate::digits::{count_digits, pad_decimal, spec_digits, spec_padded};
use crate::order::views_of;
use vstd::prelude::*;

verus! {

/// One byte past the last `'/'` of `p`, or `0` if `p` has no `'/'`.
/// Everything before it is the directory part, everything after it the
/// base name.
pub open spec fn dir_len(p: Seq<u8>) -> int
    decreases p.len(),
{
    if p.len() == 0 {
        0
    } else if p.last() == 47 {
        p.len() as int
    } else {
        dir_len(p.drop_last())
    }
}

/// The base name of `p`: everything after its last `'/'`.
pub open spec fn base_of(p: Seq<u8>) -> Seq<u8> {
    p.skip(dir_len(p))
}

/// Position of the last `'.'` of a base name, `-1` if there is none.
pub open spec fn last_dot(b: Seq<u8>) -> int
    decreases b.len(),
{
    if b.len() == 0 {
        -1
    } else if b.last() == 46 {
        b.len() - 1
    } else {
        last_dot(b.drop_last())
    }
}

/// The suffix a target keeps from the base name `b` of its source: `'.'`
/// followed by the extension, when `b` has one in the usual sense (a last
/// dot that is not the first byte) and it is non-empty; nothing otherwise.
pub open spec fn ext_suffix(b: Seq<u8>) -> Seq<u8> {
    let i = last_dot(b);
    if 1 <= i && i + 1 < b.len() {
        b.skip(i)
    } else {
        Seq::empty()
    }
}

/// The rename target for source path `p` and new base name `name`: the
/// source's directory, then `name`, then the source's extension suffix.
pub open spec fn target_of(p: Seq<u8>, name: Seq<u8>) -> Seq<u8> {
    p.take(dir_len(p)) + name + ext_suffix(base_of(p))
}

/// `dir_len` is a valid split point: no `'/'` after it, and (when positive)
/// a `'/'` right before it.
pub proof fn lemma_dir_len_bounds(p: Seq<u8>)
    ensures
        0 <= dir_len(p) <= p.len(),
        forall|i: int| dir_len(p) <= i < p.len() ==> p[i] != 47,
        dir_len(p) > 0 ==> p[dir_len(p) - 1] == 47,
    decreases p.len(),
{
    if p.len() > 0 && p.last() != 47 {
        lemma_dir_len_bounds(p.drop_last());
        assert forall|i: int| dir_len(p) <= i < p.len() implies p[i] != 47 by {
            if i < p.len() - 1 {
                assert(p[i] == p.drop_last()[i]);
            }
        }
    }
}

/// Appending slash-free bytes does not move the directory split.
proof fn lemma_dir_len_append(d: Seq<u8>, s: Seq<u8>)
    requires
        forall|i: int| 0 <= i < s.len() ==> s[i] != 47,
    ensures
        dir_len(d + s) == dir_len(d),
    decreases s.len(),
{
    if s.len() == 0 {
        assert(d + s =~= d);
    } else {
        assert((d + s).last() == s.last());
        assert((d + s).drop_last() =~= d + s.drop_last());
        assert(forall|i: int| 0 <= i < s.drop_last().len() ==> s.drop_last()[i] == s[i]);
        lemma_dir_len_append(d, s.drop_last());
    }
}

/// `last_dot` is the last dot: a dot there, none after it.
pub proof fn lemma_last_dot_bounds(b: Seq<u8>)
    ensures
        -1 <= last_dot(b) < b.len(),
        last_dot(b) >= 0 ==> b[last_dot(b)] == 46,
        forall|i: int| last_dot(b) < i < b.len() ==> b[i] != 46,
    decreases b.len(),
{
    if b.len() > 0 && b.last() != 46 {
        lemma_last_dot_bounds(b.drop_last());
        assert forall|i: int| last_dot(b) < i < b.len() implies b[i] != 46 by {
            if i < b.len() - 1 {
                assert(b[i] == b.drop_last()[i]);
            }
        }
    }
}

/// A dot-free byte string has no last dot.
proof fn lemma_last_dot_none(n: Seq<u8>)
    requires
        forall|i: int| 0 <= i < n.len() ==> n[i] != 46,
    ensures
        last_dot(n) == -1,
    decreases n.len(),
{
    if n.len() > 0 {
        assert(forall|i: int| 0 <= i < n.drop_last().len() ==> n.drop_last()[i] == n[i]);
        lemma_last_dot_none(n.drop_last());
    }
}

/// A dot with nothing but non-dots after it is the last dot.
proof fn lemma_last_dot_at(x: Seq<u8>, k: int)
    requires
        0 <= k < x.len(),
        x[k] == 46,
        forall|i: int| k < i < x.len() ==> x[i] != 46,
    ensures
        last_dot(x) == k,
    decreases x.len(),
{
    if k < x.len() - 1 {
        assert(x.last() != 46);
        assert(forall|i: int|
            0 <= i < x.drop_last().len() ==> x.drop_last()[i] == x[i]);
        lemma_last_dot_at(x.drop_last(), k);
    }
}

/// Shape of a target built from a digit-only base name: it sits in the same
/// directory as its source, its base name is exactly the new name followed
/// by the source's extension suffix, and its own extension suffix is still
/// the source's.  With the assigned index as the name, this is the
/// round-trip guarantee: after the renames, base names are exactly the
/// padded indices with the original extensions intact.
pub proof fn lemma_target_shape(p: Seq<u8>, name: Seq<u8>)
    requires
        name.len() > 0,
        forall|i: int| 0 <= i < name.len() ==> 48 <= #[trigger] name[i] <= 57,
    ensures
        dir_len(target_of(p, name)) == dir_len(p),
        target_of(p, name).take(dir_len(p)) == p.take(dir_len(p)),
        base_of(target_of(p, name)) == name + ext_suffix(base_of(p)),
        ext_suffix(base_of(target_of(p, name))) == ext_suffix(base_of(p)),
{
    let dl = dir_len(p);
    let d = p.take(dl);
    let b = base_of(p);
    let e = ext_suffix(b);
    let t = target_of(p, name);
    lemma_dir_len_bounds(p);
    lemma_last_dot_bounds(b);
    // the appended name and suffix contain no '/'
    assert forall|i: int| 0 <= i < (name + e).len() implies (name + e)[i] != 47 by {
        if i < name.len() {
            assert((name + e)[i] == name[i]);
        } else {
            let i0 = last_dot(b);
            assert((name + e)[i] == b[i0 + (i - name.len())]);
            assert(b[i0 + (i - name.len())] == p[dl + i0 + (i - name.len())]);
        }
    }
    assert(t =~= d + (name + e));
    lemma_dir_len_append(d, name + e);
    if dl > 0 {
        assert(d.last() == p[dl - 1]);
        assert(dir_len(d) == d.len());
    } else {
        assert(d =~= Seq::<u8>::empty());
    }
    assert(dir_len(t) == dl);
    assert(t.take(dl) =~= d);
    assert(base_of(t) =~= name + e);
    // the target's own extension suffix is e again
    if e.len() == 0 {
        assert(name + e =~= name);
        lemma_last_dot_none(name);
        assert(ext_suffix(name + e) =~= e);
    } else {
        let i0 = last_dot(b);
        assert(1 <= i0 && i0 + 1 < b.len());
        assert(e == b.skip(i0));
        let x = name + e;
        assert(x[name.len() as int] == b[i0]);
        assert forall|i: int| name.len() < i < x.len() implies x[i] != 46 by {
            assert(x[i] == b[i0 + (i - name.len())]);
        }
        lemma_last_dot_at(x, name.len() as int);
        assert(x.skip(name.len() as int) =~= e);
        assert(ext_suffix(name + e) == e);
    }
}

/// One byte past the last `'/'` of `p`, or `0` if `p` has no `'/'`.
fn dir_len_exec(p: &Vec<u8>) -> (r: usize)
    ensures
        r == dir_len(p@),
{
    let mut dl = p.len();
    proof {
        assert(p@.take(dl as int) =~= p@);
    }
    while dl > 0
        invariant
            dl <= p@.len(),
            dir_len(p@) == dir_len(p@.take(dl as int)),
        decreases dl,
    {
        if p[dl - 1] == 47 {
            proof {
                assert(p@.take(dl as int).last() == p@[dl - 1]);
            }
            return dl;
        }
        proof {
            assert(p@.take(dl as int).drop_last() =~= p@.take(dl - 1));
        }
        dl = dl - 1;
    }
    proof {
        assert(p@.take(0) =~= Seq::<u8>::empty());
    }
    0
}

/// Position of the last `'.'` of `b`, if any.
fn last_dot_exec(b: &Vec<u8>) -> (r: Option<usize>)
    ensures
        match r {
            Some(k) => k == last_dot(b@),
            None => last_dot(b@) == -1,
        },
{
    let mut m = b.len();
    proof {
        assert(b@.take(m as int) =~= b@);
    }
    while m > 0
        invariant
            m <= b@.len(),
            last_dot(b@) == last_dot(b@.take(m as int)),
        decreases m,
    {
        if b[m - 1] == 46 {
            proof {
                assert(b@.take(m as int).last() == b@[m - 1]);
            }
            return Some(m - 1);
        }
        proof {
            assert(b@.take(m as int).drop_last() =~= b@.take(m - 1));
        }
        m = m - 1;
    }
    proof {
        assert(b@.take(0) =~= Seq::<u8>::empty());
    }
    None
}

/// Build the rename target for source `p` and new base name `name`.
pub fn make_target(p: &Vec<u8>, name: &Vec<u8>) -> (r: Vec<u8>)
    ensures
        r@ == target_of(p@, name@),
{
    let dl = dir_len_exec(p);
    proof {
        lemma_dir_len_bounds(p@);
    }
    let mut out: Vec<u8> = Vec::new();
    let mut i: usize = 0;
    while i < dl
        invariant
            i <= dl <= p@.len(),
            out@ =~= p@.subrange(0, i as int),
        decreases dl - i,
    {
        out.push(p[i]);
        i = i + 1;
    }
    let mut i: usize = 0;
    while i < name.len()
        invariant
            dl <= p@.len(),
            i <= name@.len(),
            out@ =~= p@.subrange(0, dl as int) + name@.subrange(0, i as int),
        decreases name@.len() - i,
    {
        out.push(name[i]);
        i = i + 1;
    }
    let mut base: Vec<u8> = Vec::new();
    let mut i: usize = dl;
    while i < p.len()
        invariant
            dl <= i <= p@.len(),
            base@ =~= p@.subrange(dl as int, i as int),
        decreases p@.len() - i,
    {
        base.push(p[i]);
        i = i + 1;
    }
    proof {
        assert(base@ =~= base_of(p@));
        assert(out@ =~= p@.take(dir_len(p@)) + name@);
        lemma_last_dot_bounds(base@);
    }
    match last_dot_exec(&base) {
        Some(k) if k >= 1 && k + 1 < base.len() => {
            let mut i: usize = k;
            while i < base.len()
                invariant
                    k <= i <= base@.len(),
                    out@ =~= p@.take(dir_len(p@)) + name@ + base@.subrange(k as int, i as int),
                decreases base@.len() - i,
            {
                out.push(base[i]);
                i = i + 1;
            }
            proof {
                assert(base@.subrange(k as int, base@.len() as int) =~= base@.skip(k as int));
                assert(out@ =~= target_of(p@, name@));
            }
            out
        },
        _ => {
            proof {
                assert(ext_suffix(base_of(p@)) =~= Seq::<u8>::empty());
                assert(out@ =~= target_of(p@, name@));
            }
            out
        },
    }
}

/// One planned rename: a source path and the target it moves to.
pub struct RenamePair {
    pub src: Vec<u8>,
    pub dst: Vec<u8>,
}

/// What entry `k` of a plan over `paths` starting at `start` must hold: the
/// plan runs by descending index, so entry `k` carries the path at position
/// `len - 1 - k` of the assignment order, renamed to its padded index.
pub open spec fn plan_entry_ok(
    paths: Seq<Seq<u8>>,
    start: nat,
    k: int,
    src: Seq<u8>,
    dst: Seq<u8>,
) -> bool {
    let j = paths.len() - 1 - k;
    &&& src == paths[j]
    &&& dst == target_of(paths[j], spec_padded((start + j) as nat, spec_digits(paths.len())))
}

/// Build the rename plan for `paths` (already in assignment order) and a
/// starting index: entry `k` plans the rename of the path at position
/// `len - 1 - k` to its zero-padded index in the same directory, extension
/// kept.  One entry per input path, duplicates included; highest index
/// first.
pub fn build_plan(paths: Vec<Vec<u8>>, start: usize) -> (plan: Vec<RenamePair>)
    requires
        paths@.len() == 0 || start + paths@.len() - 1 <= usize::MAX,
    ensures
        plan@.len() == paths@.len(),
        forall|k: int|
            0 <= k < plan@.len() ==> plan_entry_ok(
                views_of(paths@),
                start as nat,
                k,
                (#[trigger] plan@[k]).src@,
                plan@[k].dst@,
            ),
{
    let ghost orig = paths@;
    let count = paths.len();
    let width = count_digits(count);
    let mut rem = paths;
    let mut plan: Vec<RenamePair> = Vec::new();
    proof {
        assert(rem@ =~= orig.take(rem@.len() as int));
    }
    while rem.len() > 0
        invariant
            count == orig.len(),
            width == spec_digits(count as nat),
            count == 0 || start + count - 1 <= usize::MAX,
            rem@ == orig.take(rem@.len() as int),
            plan@.len() + rem@.len() == count,
            forall|k: int|
                0 <= k < plan@.len() ==> plan_entry_ok(
                    views_of(orig),
                    start as nat,
                    k,
                    (#[trigger] plan@[k]).src@,
                    plan@[k].dst@,
                ),
        decreases rem@.len(),
    {
        let j = rem.len() - 1;
        let src = rem.pop().unwrap();
        proof {
            assert(src == orig[j as int]);
            assert(rem@ =~= orig.take(rem@.len() as int));
        }
        let name = pad_decimal(start + j, width);
        let dst = make_target(&src, &name);
        plan.push(RenamePair { src, dst });
        proof {
            assert(views_of(orig)[j as int] == orig[j as int]@);
            assert(plan_entry_ok(
                views_of(orig),
                start as nat,
                plan@.len() - 1,
                plan@[plan@.len() - 1].src@,
                plan@[plan@.len() - 1].dst@,
            ));
        }
    }
    plan
}

/// Round-trip law for a plan entry: the target named by `build_plan`'s
/// contract sits in its source's directory, its base name is exactly the
/// padded assigned index followed by the source's extension suffix, and so
/// its own extension suffix is still the source's.  After the renames are
/// applied, the directory therefore holds files whose base names are
/// exactly the padded indices, original extensions intact.
pub proof fn lemma_plan_round_trip(
    paths: Seq<Seq<u8>>,
    start: nat,
    k: int,
    src: Seq<u8>,
    dst: Seq<u8>,
)
    requires
        0 <= k < paths.len(),
        plan_entry_ok(paths, start, k, src, dst),
    ensures
        ({
            let j = paths.len() - 1 - k;
            let name = spec_padded((start + j) as nat, spec_digits(paths.len()));
            &&& dir_len(dst) == dir_len(paths[j])
            &&& dst.take(dir_len(paths[j])) == paths[j].take(dir_len(paths[j]))
            &&& base_of(dst) == name + ext_suffix(base_of(paths[j]))
            &&& ext_suffix(base_of(dst)) == ext_suffix(base_of(paths[j]))
        }),
{
    let j = paths.len() - 1 - k;
    let name = spec_padded((start + j) as nat, spec_digits(paths.len()));
    crate::digits::lemma_padded_digits((start + j) as nat, spec_digits(paths.len()));
    lemma_target_shape(paths[j], name);
}

/// The line shown for one mapping: the source, an arrow, the target.
pub open spec fn mapping_line(src: Seq<u8>, dst: Seq<u8>) -> Seq<u8> {
    src + seq![32u8, 45u8, 62u8, 32u8] + dst
}

/// The full preview of a plan: one mapping line per entry, in plan order.
pub open spec fn preview_spec(plan: Seq<RenamePair>) -> Seq<Seq<u8>> {
    Seq::new(plan.len(), |k: int| mapping_line(plan[k].src@, plan[k].dst@))
}

/// Render one mapping line, `source -> target`.
pub fn render_mapping(src: &Vec<u8>, dst: &Vec<u8>) -> (r: Vec<u8>)
    ensures
        r@ == mapping_line(src@, dst@),
{
    let mut out: Vec<u8> = Vec::new();
    let mut i: usize = 0;
    while i < src.len()
        invariant
            i <= src@.len(),
            out@ =~= src@.subrange(0, i as int),
        decreases src@.len() - i,
    {
        out.push(src[i]);
        i = i + 1;
    }
    out.push(32);
    out.push(45);
    out.push(62);
    out.push(32);
    let mut i: usize = 0;
    while i < dst.len()
        invariant
            i <= dst@.len(),
            out@ =~= src@ + seq![32u8, 45u8, 62u8, 32u8] + dst@.subrange(0, i as int),
        decreases dst@.len() - i,
    {
        out.push(dst[i]);
        i = i + 1;
    }
    proof {
        assert(out@ =~= mapping_line(src@, dst@));
    }
    out
}

/// The preview of a plan.  Previewing only reads the plan; what it shows is
/// exactly `preview_spec` of it.
pub fn preview_lines(plan: &Vec<RenamePair>) -> (r: Vec<Vec<u8>>)
    ensures
        views_of(r@) == preview_spec(plan@),
{
    let mut out: Vec<Vec<u8>> = Vec::new();
    let mut i: usize = 0;
    while i < plan.len()
        invariant
            i <= plan@.len(),
            out@.len() == i,
            forall|k: int|
                0 <= k < i ==> (#[trigger] out@[k])@ == mapping_line(
                    plan@[k].src@,
                    plan@[k].dst@,
                ),
        decreases plan@.len() - i,
    {
        let line = render_mapping(&plan[i].src, &plan[i].dst);
        out.push(line);
        i = i + 1;
    }
    proof {
        assert(views_of(out@) =~= preview_spec(plan@));
    }
    out
}

/// Preview idempotence: the preview is a pure function of the plan, so two
/// previews of the same plan are byte-for-byte identical, and previewing
/// mutates nothing (it takes the plan by shared reference).
pub proof fn lemma_preview_idempotent(plan: Seq<RenamePair>, first: Seq<Seq<u8>>, second: Seq<
    Seq<u8>,
>)
    requires
        first == preview_spec(plan),
        second == preview_spec(plan),
    ensures
        first == second,
{
}

/// The indices a plan over `count` paths assigns, in assignment order:
/// entry `k` of the plan (which runs in reverse) carries index
/// `start + (count - 1 - k)`.
pub open spec fn assigned_indices(start: int, count: int) -> Seq<int> {
    Seq::new(count as nat, |j: int| start + j)
}

/// The assigned indices are exactly the integers `start, start + 1, ...,
/// start + count - 1`, each used exactly once.
pub proof fn lemma_indices_exact(start: int, count: int)
    requires
        0 <= count,
    ensures
        assigned_indices(start, count).len() == count,
        forall|x: int|
            #[trigger] assigned_indices(start, count).contains(x) <==> start <= x < start
                + count,
        forall|j1: int, j2: int|
            0 <= j1 < j2 < count ==> assigned_indices(start, count)[j1] != assigned_indices(
                start,
                count,
            )[j2],
{
    let s = assigned_indices(start, count);
    assert forall|x: int| start <= x < start + count implies s.contains(x) by {
        assert(s[x - start] == x);
    }
}

} // verus!
