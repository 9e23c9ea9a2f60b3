use vstd::prelude::*;
use crate::config::model::{
    ManagerModel, lemma_up_shift, lemma_up_depth, lemma_up_root, without, lemma_without, removed_elem,
};
use crate::config::value::ElemVal;

verus! {

/// `x` lies `k >= 1` child links below `e`, and every element strictly
/// between the two passes `open` (a search descends through it).
pub open spec fn reached_by(m: ManagerModel, e: int, open: spec_fn(int) -> bool, x: int, k: nat) -> bool {
    &&& x != e
    &&& m.is_live(x)
    &&& k >= 1
    &&& m.up(x, k) == e
    &&& forall|j: nat| 1 <= j < k ==> #[trigger] m.up(x, j) != e && open(m.up(x, j))
}

/// `x` is found by a breadth-first search from `e` that descends through
/// the elements passing `open`.
pub open spec fn reached(m: ManagerModel, e: int, open: spec_fn(int) -> bool, x: int) -> bool {
    exists|k: nat| reached_by(m, e, open, x, k)
}

/// The elements a breadth-first search visits, in order, starting from the
/// queue `q`: it takes the first queued element, and queues that element's
/// children when it passes `open`. `fuel` bounds the number of visits.
pub open spec fn bfs_visit(m: ManagerModel, open: spec_fn(int) -> bool, q: Seq<usize>, fuel: nat) -> Seq<usize>
    decreases fuel,
{
    if fuel == 0 || q.len() == 0 {
        Seq::empty()
    } else {
        let x = q[0];
        let more = if open(x as int) {
            m.elems[x as int].children
        } else {
            Seq::empty()
        };
        seq![x] + bfs_visit(m, open, q.drop_first() + more, (fuel - 1) as nat)
    }
}

/// Going `a + b` steps up is going `a` steps, then `b`.
pub proof fn lemma_up_add(m: ManagerModel, x: int, a: nat, b: nat)
    ensures
        m.up(x, a + b) == m.up(m.up(x, a), b),
    decreases b,
{
    if b > 0 {
        lemma_up_add(m, x, a, (b - 1) as nat);
        assert(m.up(x, a + b) == m.parent_index(m.up(x, (a + b - 1) as nat)));
    }
}

/// Every element on the way from a reached `x` up to (not including) `e`
/// is live and not the root.
pub proof fn lemma_reach_inner_live(m: ManagerModel, d: Seq<nat>, e: int, open: spec_fn(int) -> bool, x: int, k: nat, j: nat)
    requires
        m.wf(),
        m.depths_ok(d),
        m.is_live(e),
        reached_by(m, e, open, x, k),
        j < k,
    ensures
        m.is_live(m.up(x, j)),
        m.up(x, j) != 0,
    decreases j,
{
    if j == 0 {
        if x == 0 {
            lemma_up_root(m, k);
        }
    } else {
        lemma_reach_inner_live(m, d, e, open, x, k, (j - 1) as nat);
        let y = m.up(x, (j - 1) as nat);
        assert(m.parent_ok(y));
        assert(m.up(x, j) == m.parent_index(y));
        if m.up(x, j) == 0 {
            lemma_up_add(m, x, j, (k - j) as nat);
            lemma_up_root(m, (k - j) as nat);
            assert(m.up(x, j) != e);
        }
    }
}

/// A child of a reached element that the search descends through is
/// reached one step further down.
pub proof fn lemma_reach_child(m: ManagerModel, d: Seq<nat>, e: int, open: spec_fn(int) -> bool, y: int, k: nat, c: int)
    requires
        m.wf(),
        m.depths_ok(d),
        m.is_live(e),
        reached_by(m, e, open, y, k),
        open(y),
        m.is_live(c),
        c != 0,
        m.parent_index(c) == y,
    ensures
        reached_by(m, e, open, c, k + 1),
{
    lemma_up_shift(m, c, k);
    assert forall|j: nat| 1 <= j < k + 1 implies #[trigger] m.up(c, j) != e && open(m.up(c, j)) by {
        lemma_up_shift(m, c, (j - 1) as nat);
        if j == 1 {
            assert(m.up(y, 0) == y);
        } else {
            assert(m.up(c, j) == m.up(y, (j - 1) as nat));
        }
    }
    if c == e {
        if e != 0 {
            lemma_up_depth(m, d, e, k + 1);
        }
    }
}

/// The element one step below an inner element of a reached path is a
/// child of it.
pub proof fn lemma_reach_step_down(m: ManagerModel, d: Seq<nat>, e: int, open: spec_fn(int) -> bool, x: int, k: nat, j: nat)
    requires
        m.wf(),
        m.depths_ok(d),
        m.is_live(e),
        reached_by(m, e, open, x, k),
        1 <= j < k,
    ensures
        m.elems[m.up(x, j)].children.contains(m.up(x, (j - 1) as nat) as usize),
        open(m.up(x, j)),
{
    lemma_reach_inner_live(m, d, e, open, x, k, (j - 1) as nat);
    let c = m.up(x, (j - 1) as nat);
    assert(m.parent_ok(c));
    assert(m.up(x, j) == m.parent_index(c));
}

/// A child of `e` itself is reached in one step.
pub proof fn lemma_reach_first(m: ManagerModel, e: int, open: spec_fn(int) -> bool, c: int)
    requires
        m.wf(),
        m.is_live(e),
        m.is_live(c),
        c != 0,
        c != e,
        m.parent_index(c) == e,
    ensures
        reached_by(m, e, open, c, 1),
{
    assert(m.up(c, 1) == m.parent_index(m.up(c, 0)));
}

/// The search that visits a whole subtree.
pub open spec fn descend_all() -> spec_fn(int) -> bool {
    |y: int| true
}

/// Below a live non-root `e`, the way up from any element meets `e` only
/// at its end, so every element of the subtree is reached by a search that
/// descends everywhere.
pub proof fn lemma_subtree_reached(m: ManagerModel, d: Seq<nat>, e: int, y: int, k: nat)
    requires
        m.wf(),
        m.depths_ok(d),
        m.is_live(e),
        e != 0,
        m.is_live(y),
        y != e,
        m.up(y, k) == e,
    ensures
        reached_by(m, e, descend_all(), y, k),
{
    assert(k >= 1);
    assert forall|j: nat| 1 <= j < k implies #[trigger] m.up(y, j) != e && descend_all()(m.up(y, j)) by {
        if m.up(y, j) == e {
            lemma_up_add(m, y, j, (k - j) as nat);
            lemma_up_depth(m, d, e, (k - j) as nat);
        }
    }
}

/// The parent slot of a live non-root `e` is not in its subtree.
pub proof fn lemma_parent_outside(m: ManagerModel, d: Seq<nat>, e: int, k: nat)
    requires
        m.wf(),
        m.depths_ok(d),
        m.is_live(e),
        e != 0,
    ensures
        m.up(m.parent_index(e), k) != e,
{
    lemma_up_shift(m, e, k);
    lemma_up_depth(m, d, e, k + 1);
}

/// In the subtree of a live non-root `e`, the element one step below
/// `up(y, j)` on the way from `y` is one of its children.
pub proof fn lemma_subtree_step(m: ManagerModel, d: Seq<nat>, e: int, y: int, k: nat, j: nat)
    requires
        m.wf(),
        m.depths_ok(d),
        m.is_live(e),
        e != 0,
        m.is_live(y),
        m.up(y, k) == e,
        1 <= j <= k,
    ensures
        m.elems[m.up(y, j)].children.contains(m.up(y, (j - 1) as nat) as usize),
        m.is_live(m.up(y, (j - 1) as nat)),
{
    if y == e {
        lemma_up_depth(m, d, e, k);
    }
    lemma_subtree_reached(m, d, e, y, k);
    lemma_reach_inner_live(m, d, e, descend_all(), y, k, (j - 1) as nat);
    let c = m.up(y, (j - 1) as nat);
    assert(m.parent_ok(c));
    assert(m.up(y, j) == m.parent_index(c));
}

/// An element whose parent slot lies in the subtree of `e` lies in it too.
pub proof fn lemma_subtree_of_parent(m: ManagerModel, e: int, c: int, k: nat)
    requires
        m.up(m.parent_index(c), k) == e,
    ensures
        m.in_subtree(c, e),
{
    lemma_up_shift(m, c, k);
    assert(m.up(c, k + 1) == e);
}

/// Removing the subtree of a live non-root `e` keeps the tree's invariant;
/// the live elements afterwards are those outside the subtree.
pub proof fn lemma_remove_wf(m: ManagerModel, e: int, rem: Seq<usize>, n: ManagerModel)
    requires
        m.wf(),
        m.is_live(e),
        e != 0,
        n.elems.len() == m.elems.len(),
        n.vacant == m.vacant + rem,
        rem.no_duplicates(),
        forall|y: usize| #[trigger] rem.contains(y) <==> (m.is_live(y as int) && m.in_subtree(y as int, e)),
        forall|i: int| 0 <= i < m.elems.len() ==> #[trigger] n.elems[i] == removed_elem(m, e, i),
    ensures
        n.wf(),
        forall|i: int| #[trigger] n.is_live(i) <==> (m.is_live(i) && !m.in_subtree(i, e)),
{
    let d = choose|d: Seq<nat>| m.depths_ok(d);
    let p = m.parent_index(e);
    assert(m.parent_ok(e));
    assert(!m.in_subtree(p, e)) by {
        if m.in_subtree(p, e) {
            let k = choose|k: nat| #[trigger] m.up(p, k) == e;
            lemma_parent_outside(m, d, e, k);
        }
    }
    assert forall|i: int| #[trigger] n.is_live(i) <==> (m.is_live(i) && !m.in_subtree(i, e)) by {
        if 0 <= i < m.elems.len() {
            let y = i as usize;
            if n.vacant.contains(y) {
                let t = choose|t: int| 0 <= t < n.vacant.len() && n.vacant[t] == y;
                if t < m.vacant.len() {
                    assert(m.vacant[t] == y);
                } else {
                    assert(rem[t - m.vacant.len()] == y);
                    assert(rem.contains(y));
                }
            }
            if m.vacant.contains(y) {
                let t = choose|t: int| 0 <= t < m.vacant.len() && m.vacant[t] == y;
                assert(n.vacant[t] == y);
            }
            if rem.contains(y) {
                let t = choose|t: int| 0 <= t < rem.len() && rem[t] == y;
                assert(n.vacant[m.vacant.len() + t] == y);
            }
        }
    }
    // the freed slots
    assert forall|t: int| 0 <= t < rem.len() implies 0 < #[trigger] rem[t] < m.elems.len() && m.is_live(rem[t] as int)
        && m.in_subtree(rem[t] as int, e) by {
        assert(rem.contains(rem[t]));
        if rem[t] == 0 {
            let k = choose|k: nat| #[trigger] m.up(0, k) == e;
            lemma_up_root(m, k);
        }
    }
    assert(n.vacant.no_duplicates()) by {
        assert forall|a: int, b: int| 0 <= a < n.vacant.len() && 0 <= b < n.vacant.len() && a != b implies n.vacant[a] != n.vacant[b] by {
            let l = m.vacant.len() as int;
            if a < l && b < l {
            } else if a >= l && b >= l {
                assert(n.vacant[a] == rem[a - l] && n.vacant[b] == rem[b - l]);
            } else {
                let (o, w) = if a < l { (a, b) } else { (b, a) };
                assert(n.vacant[w] == rem[w - l]);
                assert(m.is_live(rem[w - l] as int));
                assert(m.vacant.contains(n.vacant[o]));
            }
        }
    }
    assert forall|t: int| 0 <= t < n.vacant.len() implies {
        &&& 0 < #[trigger] n.vacant[t] < n.elems.len()
        &&& n.elems[n.vacant[t] as int].value is Vacant
    } by {
        let l = m.vacant.len() as int;
        if t < l {
            assert(m.vacant[t] == n.vacant[t]);
            assert(!m.is_live(m.vacant[t] as int));
            assert(m.vacant.contains(m.vacant[t]));
            if m.vacant[t] as int == p {
                assert(m.is_live(p));
            }
        } else {
            assert(n.vacant[t] == rem[t - l]);
        }
    }
    assert(n.elems[0] == removed_elem(m, e, 0));
    assert(!(m.is_live(0) && m.in_subtree(0, e))) by {
        if m.in_subtree(0, e) {
            let k = choose|k: nat| #[trigger] m.up(0, k) == e;
            lemma_up_root(m, k);
        }
    }
    assert forall|i: int| 0 <= i < m.elems.len() implies #[trigger] n.parent_index(i) == m.parent_index(i) by {
        assert(n.elems[i] == removed_elem(m, e, i));
    }
    lemma_without(m.elems[p].children, e as usize);
    assert forall|i: int| #[trigger] n.is_live(i) && i != 0 implies n.parent_ok(i) by {
        assert(m.parent_ok(i));
        assert(n.elems[i] == removed_elem(m, e, i));
        let q = m.parent_index(i);
        if m.in_subtree(q, e) {
            let k = choose|k: nat| #[trigger] m.up(q, k) == e;
            lemma_subtree_of_parent(m, e, i, k);
        }
        assert(n.elems[q] == removed_elem(m, e, q));
        if m.in_subtree(i, e) {
        }
        if i == e {
            assert(m.up(e, 0) == e);
        }
    }
    assert forall|q: int| #[trigger] n.is_live(q) implies n.children_ok(q) by {
        assert(m.children_ok(q));
        assert(n.elems[q] == removed_elem(m, e, q));
        let cs = m.elems[q].children;
        let ncs = n.elems[q].children;
        assert forall|k: int| 0 <= k < ncs.len() implies {
            &&& n.is_live(#[trigger] ncs[k] as int)
            &&& ncs[k] != 0
            &&& n.parent_index(ncs[k] as int) == q
        } by {
            assert(ncs.contains(ncs[k]));
            assert(cs.contains(ncs[k]));
            let t = choose|t: int| 0 <= t < cs.len() && cs[t] == ncs[k];
            assert(m.is_live(cs[t] as int));
            let c = ncs[k] as int;
            if m.in_subtree(c, e) {
                let j = choose|j: nat| #[trigger] m.up(c, j) == e;
                if j == 0 {
                    assert(c == e);
                    assert(q == p);
                } else {
                    lemma_up_shift(m, c, (j - 1) as nat);
                    assert(m.in_subtree(q, e)) by {
                        assert(m.up(q, (j - 1) as nat) == e);
                    }
                }
            }
        }
    }
    assert(n.depths_ok(d)) by {
        assert forall|i: int| #[trigger] n.is_live(i) && i != 0 implies d[n.parent_index(i)] < d[i] by {
            assert(m.is_live(i));
        }
    }
}

} // verus!
