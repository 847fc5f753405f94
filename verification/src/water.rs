use vstd::prelude::*;
use std::collections::VecDeque;

verus! {

/// Cells `i` and `j` of a row-major grid of width `w` and `n` cells share a side.
pub open spec fn adjacent4(w: int, n: int, i: int, j: int) -> bool {
    &&& 0 <= i < n
    &&& 0 <= j < n
    &&& {
        ||| j == i - w
        ||| j == i + w
        ||| (j == i - 1 && i % w != 0)
        ||| (j == i + 1 && i % w != w - 1)
    }
}

/// Step `k` of `p` moves between two cells that share a side.
pub open spec fn path_step(mask: Seq<bool>, w: int, p: Seq<int>, k: int) -> bool {
    adjacent4(w, mask.len() as int, p[k], p[k + 1])
}

/// `p` is a nonempty walk over masked cells, each step to a side neighbour.
pub open spec fn mask_path(mask: Seq<bool>, w: int, p: Seq<int>) -> bool {
    &&& p.len() > 0
    &&& forall|k: int| 0 <= k < p.len() ==> 0 <= #[trigger] p[k] < mask.len() && mask[p[k]]
    &&& forall|k: int| 0 <= k < p.len() - 1 ==> #[trigger] path_step(mask, w, p, k)
}

/// Cells `i` and `j` are joined by a walk over masked cells (4-connectivity).
pub open spec fn connected4(mask: Seq<bool>, w: int, i: int, j: int) -> bool {
    exists|p: Seq<int>| #[trigger] mask_path(mask, w, p) && p[0] == i && p[p.len() - 1] == j
}

/// Number of entries of `s` equal to `v`.
pub open spec fn count_of(s: Seq<u32>, v: u32) -> nat
    decreases s.len(),
{
    if s.len() == 0 {
        0
    } else {
        count_of(s.drop_last(), v) + (if s.last() == v { 1nat } else { 0nat })
    }
}

/// `labels`/`sizes` is the labelling of the 4-connected components of the masked
/// cells: unmasked cells get 0, each component gets its own label, labels are
/// numbered 1, 2, ... in the order in which their first cell appears in row-major
/// order, and `sizes[l]` is the number of cells with label `l` (`sizes[0] == 0`).
pub open spec fn is_component_labelling(mask: Seq<bool>, w: int, labels: Seq<u32>, sizes: Seq<u32>) -> bool {
    &&& labels.len() == mask.len()
    &&& sizes.len() >= 1
    &&& sizes[0] == 0
    &&& forall|i: int| 0 <= i < mask.len() ==> (#[trigger] labels[i] == 0 <==> !mask[i])
    &&& forall|i: int| 0 <= i < mask.len() ==> #[trigger] labels[i] < sizes.len()
    &&& forall|i: int, j: int|
        #[trigger] adjacent4(w, mask.len() as int, i, j) && mask[i] && mask[j] ==> labels[i] == labels[j]
    &&& forall|i: int, j: int|
        0 <= i < mask.len() && 0 <= j < mask.len() && #[trigger] labels[i] == #[trigger] labels[j]
            && labels[i] != 0 ==> connected4(mask, w, i, j)
    &&& forall|l: int| 1 <= l < sizes.len() ==> #[trigger] sizes[l] == count_of(labels, l as u32) && sizes[l] >= 1
    &&& forall|i: int|
        0 <= i < mask.len() && #[trigger] labels[i] > 1 ==> exists|k: int| 0 <= k < i && labels[k] == labels[i] - 1
}

// ----- lemmas -----

proof fn lemma_mod_step(w: int, i: int)
    requires
        0 < w,
        0 <= i,
    ensures
        i % w != w - 1 ==> (i + 1) % w == i % w + 1,
        i % w != 0 && i >= 1 ==> (i - 1) % w == i % w - 1,
{
    vstd::arithmetic::div_mod::lemma_fundamental_div_mod(i, w);
    vstd::arithmetic::div_mod::lemma_mod_pos_bound(i, w);
    vstd::arithmetic::div_mod::lemma_div_pos_is_pos(i, w);
    let q = i / w;
    let r = i % w;
    assert(i == q * w + r) by (nonlinear_arith)
        requires
            i == w * q + r,
    ;
    if r != w - 1 {
        crate::arith::lemma_cell_coords(w, q, r + 1);
    }
    if r != 0 && i >= 1 {
        crate::arith::lemma_cell_coords(w, q, r - 1);
    }
}

proof fn lemma_adjacent_symmetric(w: int, n: int, i: int, j: int)
    requires
        0 < w,
        adjacent4(w, n, i, j),
    ensures
        adjacent4(w, n, j, i),
{
    lemma_mod_step(w, i);
    if j >= 1 {
        lemma_mod_step(w, j);
    }
}

proof fn lemma_count_update(s: Seq<u32>, i: int, v: u32, x: u32)
    requires
        0 <= i < s.len(),
    ensures
        count_of(s.update(i, v), x) + (if s[i] == x { 1int } else { 0int }) == count_of(s, x) + (if v == x { 1int } else { 0int }),
    decreases s.len(),
{
    let t = s.update(i, v);
    if i == s.len() - 1 {
        assert(t.drop_last() =~= s.drop_last());
    } else {
        lemma_count_update(s.drop_last(), i, v, x);
        assert(t.drop_last() =~= s.drop_last().update(i, v));
    }
}

proof fn lemma_count_le_len(s: Seq<u32>, x: u32)
    ensures
        count_of(s, x) <= s.len(),
    decreases s.len(),
{
    if s.len() > 0 {
        lemma_count_le_len(s.drop_last(), x);
    }
}

proof fn lemma_count_pos(s: Seq<u32>, x: u32, i: int)
    requires
        0 <= i < s.len(),
        s[i] == x,
    ensures
        count_of(s, x) >= 1,
    decreases s.len(),
{
    if i < s.len() - 1 {
        lemma_count_pos(s.drop_last(), x, i);
    }
}

proof fn lemma_count_zero(s: Seq<u32>, x: u32)
    requires
        forall|i: int| 0 <= i < s.len() ==> s[i] != x,
    ensures
        count_of(s, x) == 0,
    decreases s.len(),
{
    if s.len() > 0 {
        lemma_count_zero(s.drop_last(), x);
    }
}

proof fn lemma_path_single(mask: Seq<bool>, w: int, i: int)
    requires
        0 <= i < mask.len(),
        mask[i],
    ensures
        connected4(mask, w, i, i),
{
    let p = seq![i];
    assert(mask_path(mask, w, p));
}

proof fn lemma_path_extend(mask: Seq<bool>, w: int, i: int, j: int, k: int)
    requires
        connected4(mask, w, i, j),
        adjacent4(w, mask.len() as int, j, k),
        mask[k],
    ensures
        connected4(mask, w, i, k),
{
    let p = choose|p: Seq<int>| #[trigger] mask_path(mask, w, p) && p[0] == i && p[p.len() - 1] == j;
    let p2 = p.push(k);
    assert forall|m: int| 0 <= m < p2.len() - 1 implies #[trigger] path_step(mask, w, p2, m) by {
        if m < p.len() - 1 {
            assert(path_step(mask, w, p, m));
        }
    }
    assert forall|m: int| 0 <= m < p2.len() implies 0 <= #[trigger] p2[m] < mask.len() && mask[p2[m]] by {
        if m < p.len() {
            assert(p2[m] == p[m]);
        }
    }
    assert(mask_path(mask, w, p2));
}

proof fn lemma_path_reverse(mask: Seq<bool>, w: int, i: int, j: int)
    requires
        0 < w,
        connected4(mask, w, i, j),
    ensures
        connected4(mask, w, j, i),
{
    let p = choose|p: Seq<int>| #[trigger] mask_path(mask, w, p) && p[0] == i && p[p.len() - 1] == j;
    let r = p.reverse();
    assert forall|m: int| 0 <= m < r.len() - 1 implies #[trigger] path_step(mask, w, r, m) by {
        let a = p.len() - 2 - m;
        assert(path_step(mask, w, p, a));
        lemma_adjacent_symmetric(w, mask.len() as int, p[a], p[a + 1]);
    }
    assert forall|m: int| 0 <= m < r.len() implies 0 <= #[trigger] r[m] < mask.len() && mask[r[m]] by {
        assert(r[m] == p[p.len() - 1 - m]);
    }
    assert(mask_path(mask, w, r));
}

proof fn lemma_path_concat(mask: Seq<bool>, w: int, i: int, j: int, k: int)
    requires
        connected4(mask, w, i, j),
        connected4(mask, w, j, k),
    ensures
        connected4(mask, w, i, k),
{
    let p = choose|p: Seq<int>| #[trigger] mask_path(mask, w, p) && p[0] == i && p[p.len() - 1] == j;
    let q = choose|q: Seq<int>| #[trigger] mask_path(mask, w, q) && q[0] == j && q[q.len() - 1] == k;
    let c = p + q.drop_first();
    assert forall|m: int| 0 <= m < c.len() implies 0 <= #[trigger] c[m] < mask.len() && mask[c[m]] by {
        if m < p.len() {
            assert(c[m] == p[m]);
        } else {
            assert(c[m] == q[m - p.len() + 1]);
        }
    }
    assert forall|m: int| 0 <= m < c.len() - 1 implies #[trigger] path_step(mask, w, c, m) by {
        if m < p.len() - 1 {
            assert(path_step(mask, w, p, m));
        } else if m == p.len() - 1 {
            assert(c[m] == q[0]);
            assert(path_step(mask, w, q, 0));
        } else {
            assert(path_step(mask, w, q, m - p.len() + 1));
        }
    }
    assert(mask_path(mask, w, c));
}

// ----- the search -----

/// All masked side neighbours of `i` carry the label of `i`.
spec fn closed_cell(mask: Seq<bool>, w: int, labels: Seq<u32>, i: int) -> bool {
    forall|j: int| #[trigger] adjacent4(w, mask.len() as int, i, j) && mask[j] ==> labels[j] == labels[i]
}

/// State of the labelling while component `lbl` (started at `s`) is being explored:
/// `q` holds the discovered cells of the current component that are not yet expanded,
/// `pending` is a cell currently being expanded (or -1), and `sz` counts expanded cells.
spec fn search_inv(
    mask: Seq<bool>,
    w: int,
    labels: Seq<u32>,
    sizes: Seq<u32>,
    q: Seq<usize>,
    starts: Seq<int>,
    lbl: u32,
    s: int,
    sz: int,
    pending: int,
) -> bool {
    let n = mask.len() as int;
    &&& labels.len() == n
    &&& sizes.len() == lbl
    &&& lbl >= 1
    &&& starts.len() == lbl + 1
    &&& starts[lbl as int] == s
    &&& 0 <= s < n
    &&& sizes[0] == 0
    &&& forall|i: int| 0 <= i < n ==> #[trigger] labels[i] <= lbl
    &&& forall|i: int| 0 <= i < n && #[trigger] labels[i] != 0 ==> mask[i]
    &&& forall|i: int| 0 <= i < s && mask[i] ==> #[trigger] labels[i] != 0
    &&& forall|k: int| 0 <= k < q.len() ==> (#[trigger] q[k] as int) < n && labels[q[k] as int] == lbl
    &&& q.no_duplicates()
    &&& forall|i: int|
        0 <= i < n && #[trigger] labels[i] != 0 && !q.contains(i as usize) && i != pending
            ==> closed_cell(mask, w, labels, i)
    &&& forall|i: int| 0 <= i < n && #[trigger] labels[i] != 0 ==> connected4(mask, w, starts[labels[i] as int], i)
    &&& forall|l: int, m: int| 1 <= l < m <= lbl ==> #[trigger] starts[l] < #[trigger] starts[m]
    &&& starts[1] >= 0
    &&& forall|l: int| 1 <= l <= lbl ==> labels[#[trigger] starts[l]] == l
    &&& forall|i: int| 0 <= i < n && #[trigger] labels[i] != 0 ==> starts[labels[i] as int] <= i
    &&& forall|l: int| 1 <= l < lbl ==> #[trigger] sizes[l] == count_of(labels, l as u32) && sizes[l] >= 1
    &&& sz + q.len() == count_of(labels, lbl)
}

/// Labelling state between components: everything before `s` is labelled and every
/// labelled cell is closed.
spec fn scan_inv(
    mask: Seq<bool>,
    w: int,
    labels: Seq<u32>,
    sizes: Seq<u32>,
    starts: Seq<int>,
    lbl: u32,
    s: int,
) -> bool {
    let n = mask.len() as int;
    &&& labels.len() == n
    &&& sizes.len() == lbl + 1
    &&& starts.len() == lbl + 1
    &&& 0 <= s <= n
    &&& sizes[0] == 0
    &&& forall|i: int| 0 <= i < n ==> #[trigger] labels[i] <= lbl
    &&& forall|i: int| 0 <= i < n && #[trigger] labels[i] != 0 ==> mask[i]
    &&& forall|i: int| 0 <= i < s && mask[i] ==> #[trigger] labels[i] != 0
    &&& forall|i: int| 0 <= i < n && #[trigger] labels[i] != 0 ==> closed_cell(mask, w, labels, i)
    &&& forall|i: int| 0 <= i < n && #[trigger] labels[i] != 0 ==> connected4(mask, w, starts[labels[i] as int], i)
    &&& forall|l: int, m: int| 1 <= l < m <= lbl ==> #[trigger] starts[l] < #[trigger] starts[m]
    &&& lbl >= 1 ==> starts[1] >= 0 && starts[lbl as int] < s
    &&& forall|l: int| 1 <= l <= lbl ==> labels[#[trigger] starts[l]] == l
    &&& forall|i: int| 0 <= i < n && #[trigger] labels[i] != 0 ==> starts[labels[i] as int] <= i
    &&& forall|l: int| 1 <= l <= lbl ==> #[trigger] sizes[l] == count_of(labels, l as u32) && sizes[l] >= 1
}

/// Discovers side neighbour `ni` of the cell being expanded: when it is masked and
/// unlabelled it gets the current label and joins the queue.
fn visit(mask: &[bool], labels: &mut Vec<u32>, q: &mut VecDeque<usize>, ni: usize, lbl: u32)
    requires
        (ni as int) < mask@.len(),
        old(labels)@.len() == mask@.len(),
    ensures
        (mask@[ni as int] && old(labels)@[ni as int] == 0) ==> final(labels)@ == old(labels)@.update(ni as int, lbl)
            && final(q)@ == old(q)@.push(ni),
        !(mask@[ni as int] && old(labels)@[ni as int] == 0) ==> final(labels)@ == old(labels)@ && final(q)@
            == old(q)@,
{
    if mask[ni] && labels[ni] == 0 {
        labels.set(ni, lbl);
        q.push_back(ni);
    }
}

/// A visit of a side neighbour `ni` of the expanded cell `ci` keeps the search
/// invariant, and afterwards `ni` carries the current label if it is masked.
proof fn lemma_visit(
    mask: Seq<bool>,
    w: int,
    labels: Seq<u32>,
    labels2: Seq<u32>,
    sizes: Seq<u32>,
    q: Seq<usize>,
    q2: Seq<usize>,
    starts: Seq<int>,
    lbl: u32,
    s: int,
    sz: int,
    ci: int,
    ni: int,
)
    requires
        0 < w,
        search_inv(mask, w, labels, sizes, q, starts, lbl, s, sz, ci),
        0 <= ci < mask.len(),
        labels[ci] == lbl,
        !q.contains(ci as usize),
        adjacent4(w, mask.len() as int, ci, ni),
        mask.len() < u32::MAX,
        (mask[ni] && labels[ni] == 0) ==> labels2 == labels.update(ni, lbl) && q2 == q.push(ni as usize),
        !(mask[ni] && labels[ni] == 0) ==> labels2 == labels && q2 == q,
    ensures
        search_inv(mask, w, labels2, sizes, q2, starts, lbl, s, sz, ci),
        mask[ni] ==> labels2[ni] == lbl,
        forall|i: int| 0 <= i < mask.len() && #[trigger] labels[i] != 0 ==> labels2[i] == labels[i],
        labels2[ci] == lbl,
        !q2.contains(ci as usize),
        count_of(labels2, 0) + q2.len() == count_of(labels, 0) + q.len(),
{
    reveal(search_inv);
    let n = mask.len() as int;
    if mask[ni] && labels[ni] == 0 {
        lemma_count_update(labels, ni, lbl, 0);
        // ni lies at or after the start: all masked cells before s are labelled.
        assert(ni >= s);
        lemma_count_update(labels, ni, lbl, lbl);
        assert forall|l: int| 1 <= l < lbl implies #[trigger] sizes[l] == count_of(labels2, l as u32) && sizes[l] >= 1 by {
            lemma_count_update(labels, ni, lbl, l as u32);
        }
        assert forall|k: int| 0 <= k < q2.len() implies (#[trigger] q2[k] as int) < n && labels2[q2[k] as int] == lbl by {
            if k < q.len() {
                assert(q2[k] == q[k]);
            } else {
                assert(q2[k] == ni as usize);
            }
        }
        assert(!q.contains(ni as usize)) by {
            if q.contains(ni as usize) {
                let k = choose|k: int| 0 <= k < q.len() && q[k] == ni as usize;
                assert(labels[q[k] as int] == lbl);
            }
        }
        assert forall|i: int|
            0 <= i < n && #[trigger] labels2[i] != 0 && !q2.contains(i as usize) && i != ci implies closed_cell(
            mask,
            w,
            labels2,
            i,
        ) by {
            if i != ni {
                assert(!q.contains(i as usize)) by {
                    if q.contains(i as usize) {
                        let k = choose|k: int| 0 <= k < q.len() && q[k] == i as usize;
                        assert(q2[k] == q[k]);
                    }
                }
                assert(closed_cell(mask, w, labels, i));
                assert forall|j: int| #[trigger] adjacent4(w, n, i, j) && mask[j] implies labels2[j] == labels2[i] by {
                    assert(labels[j] == labels[i]);
                }
            } else {
                assert(q2.contains(i as usize)) by {
                    assert(q2[q.len() as int] == ni as usize);
                }
            }
        }
        assert forall|i: int| 0 <= i < n && #[trigger] labels2[i] != 0 implies connected4(
            mask,
            w,
            starts[labels2[i] as int],
            i,
        ) by {
            if i == ni {
                assert(connected4(mask, w, starts[labels[ci] as int], ci));
                lemma_path_extend(mask, w, starts[lbl as int], ci, ni);
            }
        }
        assert forall|l: int| 1 <= l <= lbl implies labels2[#[trigger] starts[l]] == l by {
            assert(labels[starts[l]] == l);
        }
        assert(q2.no_duplicates()) by {
            assert forall|a: int, b: int| 0 <= a < b < q2.len() implies q2[a] != q2[b] by {
                if b == q.len() {
                    assert(q.contains(q2[a]));
                }
            }
        }
    } else {
        if mask[ni] {
            // ni is already labelled: it must belong to the current component.
            if labels[ni] != lbl {
                assert(!q.contains(ni as usize)) by {
                    if q.contains(ni as usize) {
                        let k = choose|k: int| 0 <= k < q.len() && q[k] == ni as usize;
                        assert(labels[q[k] as int] == lbl);
                    }
                }
                assert(closed_cell(mask, w, labels, ni));
                lemma_adjacent_symmetric(w, n, ci, ni);
                assert(labels[ci] == labels[ni]);
            }
        }
    }
}

/// Once every side neighbour of the expanded cell carries its label, nothing is pending.
proof fn lemma_expanded(
    m: Seq<bool>,
    wi: int,
    labels: Seq<u32>,
    sizes: Seq<u32>,
    q: Seq<usize>,
    starts: Seq<int>,
    lbl: u32,
    start: int,
    sz: int,
    ci: int,
)
    requires
        search_inv(m, wi, labels, sizes, q, starts, lbl, start, sz, ci),
        0 <= ci < m.len(),
        labels[ci] == lbl,
        forall|j: int| #[trigger] adjacent4(wi, m.len() as int, ci, j) && m[j] ==> labels[j] == lbl,
    ensures
        search_inv(m, wi, labels, sizes, q, starts, lbl, start, sz, -1),
{
    reveal(search_inv);
    assert(closed_cell(m, wi, labels, ci));
}

/// Taking the front cell off the queue makes it the cell being expanded.
proof fn lemma_pop(
    m: Seq<bool>,
    wi: int,
    l0: Seq<u32>,
    sizes: Seq<u32>,
    q0: Seq<usize>,
    q1: Seq<usize>,
    starts: Seq<int>,
    lbl: u32,
    start: int,
    sz: int,
)
    requires
        search_inv(m, wi, l0, sizes, q0, starts, lbl, start, sz, -1),
        q0.len() > 0,
        q1 == q0.subrange(1, q0.len() as int),
        m.len() < u32::MAX,
    ensures
        search_inv(m, wi, l0, sizes, q1, starts, lbl, start, sz + 1, q0[0] as int),
        !q1.contains(q0[0]),
        (q0[0] as int) < m.len(),
        l0[q0[0] as int] == lbl,
        sz + 1 <= m.len(),
{
    reveal(search_inv);
    let n = m.len() as int;
    let ci = q0[0];
    assert(q1 =~= q0.drop_first());
    assert(!q1.contains(ci)) by {
        if q1.contains(ci) {
            let k = choose|k: int| 0 <= k < q1.len() && q1[k] == ci;
            assert(q0[k + 1] == q0[0]);
        }
    }
    assert forall|k: int| 0 <= k < q1.len() implies (#[trigger] q1[k] as int) < n && l0[q1[k] as int] == lbl by {
        assert(q1[k] == q0[k + 1]);
    }
    assert forall|i: int|
        0 <= i < n && #[trigger] l0[i] != 0 && !q1.contains(i as usize) && i != ci implies closed_cell(
        m,
        wi,
        l0,
        i,
    ) by {
        if q0.contains(i as usize) {
            let k = choose|k: int| 0 <= k < q0.len() && q0[k] == i as usize;
            if k > 0 {
                assert(q1[k - 1] == q0[k]);
            }
        }
    }
    lemma_count_le_len(l0, lbl);
    assert(q1.no_duplicates());
}

/// Takes the next cell off the queue and discovers its side neighbours.
#[verifier::rlimit(60)]
fn expand_one(
    mask: &[bool],
    w: usize,
    h: usize,
    labels: &mut Vec<u32>,
    q: &mut VecDeque<usize>,
    lbl: u32,
    Ghost(sizes): Ghost<Seq<u32>>,
    Ghost(starts): Ghost<Seq<int>>,
    Ghost(start): Ghost<int>,
    sz: u32,
) -> (new_sz: u32)
    requires
        mask@.len() == w * h,
        w * h < u32::MAX,
        w > 0,
        old(q)@.len() > 0,
        search_inv(mask@, w as int, old(labels)@, sizes, old(q)@, starts, lbl, start, sz as int, -1),
    ensures
        search_inv(mask@, w as int, final(labels)@, sizes, final(q)@, starts, lbl, start, new_sz as int, -1),
        count_of(final(labels)@, 0) + final(q)@.len() < count_of(old(labels)@, 0) + old(q)@.len(),
{
    let n = mask.len();
    let ghost m = mask@;
    let ghost wi = w as int;
    let ghost l0 = labels@;
    let ghost q0 = q@;
    let ci = q.pop_front().unwrap();
    proof {
        lemma_pop(m, wi, l0, sizes, q0, q@, starts, lbl, start, sz as int);
    }
    let new_sz = sz + 1;
    let cx = ci % w;
    proof {
        lemma_neighbours(w as int, h as int, ci as int);
    }
    if ci >= w {
        let ghost lb = labels@;
        let ghost qb = q@;
        visit(mask, labels, q, ci - w, lbl);
        proof {
            lemma_visit(m, wi, lb, labels@, sizes, qb, q@, starts, lbl, start, new_sz as int, ci as int, ci - w);
        }
    }
    if cx > 0 {
        let ghost lb = labels@;
        let ghost qb = q@;
        visit(mask, labels, q, ci - 1, lbl);
        proof {
            lemma_visit(m, wi, lb, labels@, sizes, qb, q@, starts, lbl, start, new_sz as int, ci as int, ci - 1);
        }
    }
    if cx + 1 < w {
        let ghost lb = labels@;
        let ghost qb = q@;
        visit(mask, labels, q, ci + 1, lbl);
        proof {
            lemma_visit(m, wi, lb, labels@, sizes, qb, q@, starts, lbl, start, new_sz as int, ci as int, ci + 1);
        }
    }
    if ci < n - w {
        let ghost lb = labels@;
        let ghost qb = q@;
        visit(mask, labels, q, ci + w, lbl);
        proof {
            lemma_visit(m, wi, lb, labels@, sizes, qb, q@, starts, lbl, start, new_sz as int, ci as int, ci + w);
        }
    }
    proof {
        lemma_expanded(m, wi, labels@, sizes, q@, starts, lbl, start, new_sz as int, ci as int);
    }
    new_sz
}

/// 4-connected component labelling of the masked cells of a row-major grid of
/// width `w` and height `h`. Returns the label of each cell (0 for unmasked cells,
/// components numbered from 1 in order of their first cell) and the size of each
/// label (`sizes[0] == 0`).
pub fn label_comp(mask: &[bool], w: usize, h: usize) -> (r: (Vec<u32>, Vec<u32>))
    requires
        mask@.len() == w * h,
        w * h < u32::MAX,
    ensures
        is_component_labelling(mask@, w as int, r.0@, r.1@),
{
    let n = mask.len();
    let mut labels: Vec<u32> = Vec::new();
    let mut z: usize = 0;
    while z < n
        invariant
            z <= n,
            n == mask@.len(),
            labels@.len() == z,
            forall|i: int| 0 <= i < z ==> labels@[i] == 0,
        decreases n - z,
    {
        labels.push(0);
        z = z + 1;
    }
    let mut sizes: Vec<u32> = Vec::new();
    sizes.push(0);
    let mut lbl: u32 = 0;
    let mut q: VecDeque<usize> = VecDeque::new();
    let ghost mut starts: Seq<int> = seq![-1int];
    let ghost m = mask@;
    let ghost wi = w as int;
    proof {
        assert forall|i: int| 0 <= i < n && #[trigger] labels@[i] != 0 implies closed_cell(m, wi, labels@, i) by {}
    }
    let mut start: usize = 0;
    while start < n
        invariant
            n == mask@.len(),
            m == mask@,
            wi == w as int,
            n == w * h,
            n < u32::MAX,
            q@.len() == 0,
            scan_inv(m, wi, labels@, sizes@, starts, lbl, start as int),
        decreases n - start,
    {
        if !mask[start] || labels[start] != 0 {
            start = start + 1;
            continue;
        }
        proof {
            assert(w > 0) by (nonlinear_arith)
                requires
                    start < w * h,
            ;
            if lbl >= 1 {
                assert forall|l: int| 1 <= l <= lbl implies #[trigger] starts[l] >= l - 1 by {
                    if l > 1 {
                        assert forall|k: int| 1 <= k <= l implies #[trigger] starts[k] >= k - 1 by {
                            lemma_starts_increase(starts, k, lbl);
                        }
                    }
                }
            }
        }
        let ghost old_labels = labels@;
        lbl = lbl + 1;
        labels.set(start, lbl);
        q.push_back(start);
        let mut sz: u32 = 0;
        proof {
            starts = starts.push(start as int);
            lemma_count_zero(old_labels, lbl);
            lemma_count_update(old_labels, start as int, lbl, lbl);
            assert forall|l: int| 1 <= l < lbl implies #[trigger] sizes@[l] == count_of(labels@, l as u32) && sizes@[l]
                >= 1 by {
                lemma_count_update(old_labels, start as int, lbl, l as u32);
            }
            lemma_path_single(m, wi, start as int);
            assert forall|i: int| 0 <= i < n && #[trigger] labels@[i] != 0 implies connected4(
                m,
                wi,
                starts[labels@[i] as int],
                i,
            ) by {
                if i != start {
                    assert(old_labels[i] != 0);
                }
            }
            assert forall|i: int|
                0 <= i < n && #[trigger] labels@[i] != 0 && !q@.contains(i as usize) && i != -1 implies closed_cell(
                m,
                wi,
                labels@,
                i,
            ) by {
                if i != start {
                    assert(old_labels[i] != 0);
                    assert(closed_cell(m, wi, old_labels, i));
                    assert forall|j: int| #[trigger] adjacent4(wi, n as int, i, j) && m[j] implies labels@[j]
                        == labels@[i] by {
                        assert(old_labels[j] == old_labels[i]);
                    }
                } else {
                    assert(q@[0] == start);
                }
            }
            assert(q@.no_duplicates());
        }
        while q.len() > 0
            invariant
                n == mask@.len(),
                m == mask@,
                wi == w as int,
                n == w * h,
                n < u32::MAX,
                w > 0,
                search_inv(m, wi, labels@, sizes@, q@, starts, lbl, start as int, sz as int, -1),
            decreases count_of(labels@, 0) + q@.len(),
        {
            sz = expand_one(mask, w, h, &mut labels, &mut q, lbl, Ghost(sizes@), Ghost(starts), Ghost(start as int), sz);
        }
        proof {
            lemma_count_pos(labels@, lbl, start as int);
            assert forall|i: int| 0 <= i < n && #[trigger] labels@[i] != 0 implies closed_cell(m, wi, labels@, i) by {
                assert(!q@.contains(i as usize));
            }
        }
        sizes.push(sz);
        proof {
            assert forall|l: int| 1 <= l <= lbl implies #[trigger] sizes@[l] == count_of(labels@, l as u32) && sizes@[l]
                >= 1 by {}
        }
        start = start + 1;
    }
    proof {
        let lab = labels@;
        let sz = sizes@;
        assert forall|i: int, j: int|
            #[trigger] adjacent4(wi, n as int, i, j) && m[i] && m[j] implies lab[i] == lab[j] by {
            assert(closed_cell(m, wi, lab, i));
        }
        assert forall|i: int, j: int|
            0 <= i < n && 0 <= j < n && #[trigger] lab[i] == #[trigger] lab[j] && lab[i] != 0 implies connected4(
            m,
            wi,
            i,
            j,
        ) by {
            let st = starts[lab[i] as int];
            assert(w > 0) by (nonlinear_arith)
                requires
                    i < w * h,
                    0 <= i,
            ;
            lemma_path_reverse(m, wi, st, i);
            lemma_path_concat(m, wi, i, st, j);
        }
        assert forall|i: int|
            0 <= i < n && #[trigger] lab[i] > 1 implies exists|k: int| 0 <= k < i && lab[k] == lab[i] - 1 by {
            let l = lab[i] as int;
            assert(starts[l - 1] < starts[l]);
            assert(lab[starts[l - 1]] == l - 1);
        }
    }
    (labels, sizes)
}

proof fn lemma_neighbours(w: int, h: int, ci: int)
    requires
        0 < w,
        0 <= ci < w * h,
    ensures
        0 <= ci % w < w,
        ci % w <= ci,
        ci % w + 1 < w ==> ci + 1 < w * h,
        w <= w * h,
        ci >= w ==> ci % w == (ci - w) % w,
{
    crate::arith::lemma_index_split(w, h, ci);
    let y = ci / w;
    let x = ci % w;
    assert(0 <= y * w) by (nonlinear_arith)
        requires
            0 <= y,
            0 < w,
    ;
    assert(y * w + w <= w * h) by (nonlinear_arith)
        requires
            0 <= y < h,
            0 < w,
    ;
    if ci >= w {
        assert(y >= 1) by (nonlinear_arith)
            requires
                ci == y * w + x,
                x < w,
                ci >= w,
                0 <= x,
        ;
        crate::arith::lemma_cell_coords(w, y - 1, x);
        assert((y - 1) * w + x == ci - w) by (nonlinear_arith)
            requires
                ci == y * w + x,
        ;
    }
}

proof fn lemma_starts_increase(starts: Seq<int>, k: int, lbl: u32)
    requires
        1 <= k <= lbl,
        starts.len() == lbl + 1,
        starts[1] >= 0,
        forall|l: int, m: int| 1 <= l < m <= lbl ==> #[trigger] starts[l] < #[trigger] starts[m],
    ensures
        starts[k] >= k - 1,
    decreases k,
{
    if k > 1 {
        lemma_starts_increase(starts, k - 1, lbl);
        assert(starts[k - 1] < starts[k]);
    }
}

} // verus!
