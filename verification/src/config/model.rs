use vstd::prelude::*;
use crate::config::value::ElemVal;
use crate::config::names::{valid_elem_name, invalid_name_message};

verus! {

/// What an element slot holds, as plain mathematical values.
pub struct ElemModel {
    pub name: Seq<char>,
    pub value: ElemVal,
    /// The slot of the parent; `None` for the root and for top-level elements.
    pub parent: Option<usize>,
    /// Slots of the children, in the order they were added.
    pub children: Seq<usize>,
    pub meta: Map<Seq<char>, Seq<char>>,
}

/// A whole tree: its element slots (slot 0 is the hidden root) and the
/// slots freed by removals, in the order they were freed.
pub struct ManagerModel {
    pub elems: Seq<ElemModel>,
    pub vacant: Seq<usize>,
}

/// The element that `create` stores: orphaned at first, with no children
/// and no metadata.
pub open spec fn fresh_elem(name: Seq<char>, value: ElemVal, parent: int) -> ElemModel {
    ElemModel {
        name,
        value,
        parent: if parent == 0 { None } else { Some(parent as usize) },
        children: Seq::empty(),
        meta: Map::empty(),
    }
}

impl ElemModel {
    pub open spec fn with_children(self, children: Seq<usize>) -> ElemModel {
        ElemModel { children, ..self }
    }

    pub open spec fn with_value(self, value: ElemVal) -> ElemModel {
        ElemModel { value, ..self }
    }

    pub open spec fn with_name(self, name: Seq<char>) -> ElemModel {
        ElemModel { name, ..self }
    }

    pub open spec fn with_meta(self, meta: Map<Seq<char>, Seq<char>>) -> ElemModel {
        ElemModel { meta, ..self }
    }
}

impl ManagerModel {
    /// A slot that holds an element: in range and not freed.
    pub open spec fn is_live(self, i: int) -> bool {
        0 <= i < self.elems.len() && !self.vacant.contains(i as usize)
    }

    /// The slot under whose children `i` is listed: its parent, or the root
    /// for a top-level element.
    pub open spec fn parent_index(self, i: int) -> int {
        match self.elems[i].parent {
            Some(p) => p as int,
            None => 0,
        }
    }

    /// The `k`-th ancestor of slot `i` along parent links (`i` itself for
    /// `k == 0`); `None` once the chain has passed a top-level element.
    pub open spec fn ancestor_at(self, i: int, k: nat) -> Option<int>
        decreases k,
    {
        if k == 0 {
            Some(i)
        } else {
            match self.ancestor_at(i, (k - 1) as nat) {
                Some(a) => match self.elems[a].parent {
                    Some(p) => Some(p as int),
                    None => None,
                },
                None => None,
            }
        }
    }

    /// The slot `k` steps up from `i` along `parent_index` (which leads from
    /// a top-level element to the root, and from the root to itself).
    pub open spec fn up(self, i: int, k: nat) -> int
        decreases k,
    {
        if k == 0 {
            i
        } else {
            self.parent_index(self.up(i, (k - 1) as nat))
        }
    }

    /// Slot `i` lies in the subtree of `e` (`e` included).
    pub open spec fn in_subtree(self, i: int, e: int) -> bool {
        exists|k: nat| #[trigger] self.up(i, k) == e
    }

    /// The number of elements in the tree, the hidden root not counted.
    pub open spec fn live_count(self) -> int {
        self.elems.len() - 1 - self.vacant.len()
    }

    pub open spec fn parent_ok(self, i: int) -> bool {
        &&& match self.elems[i].parent {
            Some(p) => p != 0 && self.is_live(p as int),
            None => true,
        }
        &&& self.elems[self.parent_index(i)].children.contains(i as usize)
    }

    pub open spec fn children_ok(self, p: int) -> bool {
        let cs = self.elems[p].children;
        &&& cs.no_duplicates()
        &&& forall|k: int|
            0 <= k < cs.len() ==> {
                &&& self.is_live(#[trigger] cs[k] as int)
                &&& cs[k] != 0
                &&& self.parent_index(cs[k] as int) == p
            }
    }

    /// `d` gives every live element a depth greater than its parent's, so
    /// parent links never form a cycle.
    pub open spec fn depths_ok(self, d: Seq<nat>) -> bool {
        &&& d.len() == self.elems.len()
        &&& forall|i: int|
            #[trigger] self.is_live(i) && i != 0 ==> d[self.parent_index(i)] < d[i]
    }

    /// The tree's invariant: the root is slot 0 and never freed; freed slots
    /// are listed once and marked `Vacant`; parent and child links of live
    /// elements agree; and parent links are acyclic.
    pub open spec fn wf(self) -> bool {
        &&& 1 <= self.elems.len() <= usize::MAX
        &&& self.vacant.no_duplicates()
        &&& forall|k: int|
            0 <= k < self.vacant.len() ==> {
                &&& 0 < #[trigger] self.vacant[k] < self.elems.len()
                &&& self.elems[self.vacant[k] as int].value is Vacant
            }
        &&& self.elems[0].parent is None
        &&& forall|i: int| #[trigger] self.is_live(i) && i != 0 ==> self.parent_ok(i)
        &&& forall|p: int| #[trigger] self.is_live(p) ==> self.children_ok(p)
        &&& exists|d: Seq<nat>| self.depths_ok(d)
    }

    /// The slot that the next `create` fills: the most recently freed one,
    /// or a new slot at the end.
    pub open spec fn next_slot(self) -> int {
        if self.vacant.len() > 0 {
            self.vacant.last() as int
        } else {
            self.elems.len() as int
        }
    }

    /// The tree after `create` has stored a new element named `name` with
    /// `value` under slot `p` (0 for top level).
    pub open spec fn after_create(self, name: Seq<char>, value: ElemVal, p: int) -> ManagerModel {
        let idx = self.next_slot();
        let placed = if self.vacant.len() > 0 {
            self.elems.update(idx, fresh_elem(name, value, p))
        } else {
            self.elems.push(fresh_elem(name, value, p))
        };
        ManagerModel {
            elems: placed.update(p, placed[p].with_children(placed[p].children.push(idx as usize))),
            vacant: if self.vacant.len() > 0 {
                self.vacant.drop_last()
            } else {
                self.vacant
            },
        }
    }

    /// The first of the slots `cs` whose element is named `name`.
    pub open spec fn first_named(self, cs: Seq<usize>, name: Seq<char>) -> Option<usize>
        decreases cs.len(),
    {
        if cs.len() == 0 {
            None
        } else if self.elems[cs[0] as int].name == name {
            Some(cs[0])
        } else {
            self.first_named(cs.drop_first(), name)
        }
    }

    /// The first child of `e` named `name`.
    pub open spec fn child_named(self, e: int, name: Seq<char>) -> Option<usize> {
        self.first_named(self.elems[e].children, name)
    }

    /// Following `names` from `e`, each step to the first child so named.
    pub open spec fn path_from(self, e: int, names: Seq<Seq<char>>) -> Option<usize>
        decreases names.len(),
    {
        if names.len() == 0 {
            Some(e as usize)
        } else {
            match self.child_named(e, names[0]) {
                Some(c) => self.path_from(c as int, names.drop_first()),
                None => None,
            }
        }
    }

    /// Slot `a` is a top-level ancestor position: `k` steps up from `e`
    /// there is an element without a parent.
    pub open spec fn is_top_at(self, e: int, k: nat) -> bool {
        self.ancestor_at(e, k) matches Some(a) && self.elems[a].parent is None
    }

    /// The number of parent links from `e` up to its top-level ancestor.
    pub open spec fn top_steps(self, e: int) -> nat {
        choose|k: nat| self.is_top_at(e, k)
    }

    /// The names from the top-level ancestor of `e` down to `e` itself.
    pub open spec fn hierarchy_names(self, e: int) -> Seq<Seq<char>> {
        let n = self.top_steps(e);
        Seq::new(n + 1, |i: int| self.elems[self.ancestor_at(e, (n - i) as nat).unwrap()].name)
    }

    /// The tree with slot `i` replaced by `em`.
    pub open spec fn with_elem(self, i: int, em: ElemModel) -> ManagerModel {
        ManagerModel { elems: self.elems.update(i, em), vacant: self.vacant }
    }
}

/// The character sequences of a list of string slices.
pub open spec fn str_views(v: Seq<&str>) -> Seq<Seq<char>> {
    v.map_values(|s: &str| s@)
}

/// What `obtain` does from slot `e` along `names`: step to the first child
/// so named, or create an element holding `Null` there when there is none.
/// Gives the tree afterwards and the slot reached, or the error of the first
/// name that cannot be created (elements created before it stay).
pub open spec fn obtain_model(m: ManagerModel, e: int, names: Seq<Seq<char>>) -> (ManagerModel, Result<usize, Seq<char>>)
    decreases names.len(),
{
    if names.len() == 0 {
        (m, Ok(e as usize))
    } else {
        match m.child_named(e, names[0]) {
            Some(c) => obtain_model(m, c as int, names.drop_first()),
            None => if valid_elem_name(names[0]) {
                obtain_model(m.after_create(names[0], ElemVal::Null, e), m.next_slot(), names.drop_first())
            } else {
                (m, Err(invalid_name_message(names[0])))
            },
        }
    }
}

/// A live element's children are live.
pub proof fn lemma_child_live(m: ManagerModel, p: int, k: int)
    requires
        m.wf(),
        m.is_live(p),
        0 <= k < m.elems[p].children.len(),
    ensures
        m.is_live(m.elems[p].children[k] as int),
        m.elems[p].children[k] != 0,
        m.parent_index(m.elems[p].children[k] as int) == p,
{
    assert(m.children_ok(p));
}

/// The first child so named is a live child.
pub proof fn lemma_first_named_in(m: ManagerModel, cs: Seq<usize>, name: Seq<char>)
    ensures
        m.first_named(cs, name) matches Some(c) ==> cs.contains(c) && m.elems[c as int].name == name,
    decreases cs.len(),
{
    if cs.len() > 0 {
        lemma_first_named_in(m, cs.drop_first(), name);
        if m.elems[cs[0] as int].name != name {
            if let Some(c) = m.first_named(cs.drop_first(), name) {
                let j = choose|j: int| 0 <= j < cs.drop_first().len() && cs.drop_first()[j] == c;
                assert(cs[j + 1] == c);
            }
        } else {
            assert(cs[0] == cs[0]);
        }
    }
}

/// A child found by name is live.
pub proof fn lemma_child_named_live(m: ManagerModel, e: int, name: Seq<char>)
    requires
        m.wf(),
        m.is_live(e),
    ensures
        m.child_named(e, name) matches Some(c) ==> m.is_live(c as int) && c != 0
            && m.elems[c as int].name == name && m.parent_index(c as int) == e,
{
    lemma_first_named_in(m, m.elems[e].children, name);
    if let Some(c) = m.child_named(e, name) {
        let k = choose|k: int| 0 <= k < m.elems[e].children.len() && m.elems[e].children[k] == c;
        lemma_child_live(m, e, k);
    }
}

/// Once the chain of ancestors has ended it stays ended.
pub proof fn lemma_ancestor_none_after(m: ManagerModel, e: int, k: nat, j: nat)
    requires
        m.ancestor_at(e, k) is None,
    ensures
        m.ancestor_at(e, k + j) is None,
    decreases j,
{
    if j > 0 {
        lemma_ancestor_none_after(m, e, k, (j - 1) as nat);
        assert(m.ancestor_at(e, k + j) == match m.ancestor_at(e, (k + j - 1) as nat) {
            Some(a) => match m.elems[a].parent {
                Some(p) => Some(p as int),
                None => None,
            },
            None => None,
        });
    }
}

/// The chain of ancestors reaches a top-level element at most once.
pub proof fn lemma_top_unique(m: ManagerModel, e: int, k1: nat, k2: nat)
    requires
        m.is_top_at(e, k1),
        m.is_top_at(e, k2),
    ensures
        k1 == k2,
{
    if k1 < k2 {
        assert(m.ancestor_at(e, k1 + 1) is None);
        lemma_ancestor_none_after(m, e, k1 + 1, (k2 - k1 - 1) as nat);
    } else if k2 < k1 {
        assert(m.ancestor_at(e, k2 + 1) is None);
        lemma_ancestor_none_after(m, e, k2 + 1, (k1 - k2 - 1) as nat);
    }
}

/// A top-level position found by walking up determines `top_steps`.
pub proof fn lemma_top_steps(m: ManagerModel, e: int, k: nat)
    requires
        m.is_top_at(e, k),
    ensures
        m.top_steps(e) == k,
{
    let t = m.top_steps(e);
    assert(m.is_top_at(e, t));
    lemma_top_unique(m, e, k, t);
}

/// Going `k + 1` steps up from `i` is going `k` steps up from its parent slot.
pub proof fn lemma_up_shift(m: ManagerModel, i: int, k: nat)
    ensures
        m.up(i, k + 1) == m.up(m.parent_index(i), k),
    decreases k,
{
    if k > 0 {
        lemma_up_shift(m, i, (k - 1) as nat);
        assert(m.up(i, k + 1) == m.parent_index(m.up(i, k)));
        assert(m.up(m.parent_index(i), k) == m.parent_index(m.up(m.parent_index(i), (k - 1) as nat)));
    } else {
        assert(m.up(i, 1) == m.parent_index(m.up(i, 0)));
    }
}

/// Going up from a live non-root element reaches the root or a live
/// element of smaller depth; in particular it never comes back.
pub proof fn lemma_up_depth(m: ManagerModel, d: Seq<nat>, x: int, k: nat)
    requires
        m.wf(),
        m.depths_ok(d),
        m.is_live(x),
        x != 0,
        k >= 1,
    ensures
        m.up(x, k) == 0 || (m.is_live(m.up(x, k)) && m.up(x, k) != 0 && d[m.up(x, k)] < d[x]),
    decreases k,
{
    assert(m.parent_ok(x));
    if k > 1 {
        lemma_up_depth(m, d, x, (k - 1) as nat);
        let y = m.up(x, (k - 1) as nat);
        if y != 0 {
            assert(m.parent_ok(y));
            assert(m.is_live(y) && y != 0);
        }
    }
}

/// The root stays the root going up.
pub proof fn lemma_up_root(m: ManagerModel, k: nat)
    requires
        m.wf(),
    ensures
        m.up(0, k) == 0,
    decreases k,
{
    if k > 0 {
        lemma_up_root(m, (k - 1) as nat);
    }
}

/// `s` with every occurrence of `v` left out, the rest in order.
pub open spec fn without(s: Seq<usize>, v: usize) -> Seq<usize>
    decreases s.len(),
{
    if s.len() == 0 {
        s
    } else if s.last() == v {
        without(s.drop_last(), v)
    } else {
        without(s.drop_last(), v).push(s.last())
    }
}

/// What `without` keeps: the other values, none twice if `s` had none twice.
pub proof fn lemma_without(s: Seq<usize>, v: usize)
    ensures
        forall|y: usize| #[trigger] without(s, v).contains(y) <==> s.contains(y) && y != v,
        s.no_duplicates() ==> without(s, v).no_duplicates(),
    decreases s.len(),
{
    if s.len() > 0 {
        let t = s.drop_last();
        lemma_without(t, v);
        assert forall|y: usize| #[trigger] s.contains(y) <==> t.contains(y) || y == s.last() by {
            if s.contains(y) {
                let i = choose|i: int| 0 <= i < s.len() && s[i] == y;
                if i < t.len() {
                    assert(t[i] == y);
                }
            }
            if t.contains(y) {
                let i = choose|i: int| 0 <= i < t.len() && t[i] == y;
                assert(s[i] == y);
            }
            assert(s[s.len() - 1] == s.last());
        }
        if s.last() != v {
            let w = without(t, v);
            assert forall|y: usize| #[trigger] w.push(s.last()).contains(y) <==> w.contains(y) || y == s.last() by {
                if w.push(s.last()).contains(y) {
                    let i = choose|i: int| 0 <= i < w.push(s.last()).len() && w.push(s.last())[i] == y;
                    if i < w.len() {
                        assert(w[i] == y);
                    }
                }
                if w.contains(y) {
                    let i = choose|i: int| 0 <= i < w.len() && w[i] == y;
                    assert(w.push(s.last())[i] == y);
                }
                assert(w.push(s.last())[w.len() as int] == s.last());
            }
            if s.no_duplicates() {
                assert(t.no_duplicates()) by {
                    assert forall|a: int, b: int| 0 <= a < t.len() && 0 <= b < t.len() && a != b implies t[a] != t[b] by {
                        assert(s[a] == t[a] && s[b] == t[b]);
                    }
                }
                assert(!t.contains(s.last())) by {
                    if t.contains(s.last()) {
                        let i = choose|i: int| 0 <= i < t.len() && t[i] == s.last();
                        assert(s[i] == s[s.len() - 1]);
                    }
                }
                assert forall|a: int, b: int| 0 <= a < w.push(s.last()).len() && 0 <= b < w.push(s.last()).len() && a != b
                    implies #[trigger] w.push(s.last())[a] != #[trigger] w.push(s.last())[b] by {
                    if a < w.len() && b < w.len() {
                        assert(w.push(s.last())[a] == w[a] && w.push(s.last())[b] == w[b]);
                    } else if a < w.len() {
                        assert(w.contains(w[a]));
                        assert(w.push(s.last())[a] == w[a]);
                    } else if b < w.len() {
                        assert(w.contains(w[b]));
                        assert(w.push(s.last())[b] == w[b]);
                    }
                }
            }
        } else {
            if s.no_duplicates() {
                assert(t.no_duplicates()) by {
                    assert forall|a: int, b: int| 0 <= a < t.len() && 0 <= b < t.len() && a != b implies t[a] != t[b] by {
                        assert(s[a] == t[a] && s[b] == t[b]);
                    }
                }
            }
        }
    }
}

/// What `remove` leaves in slot `i` after taking out the subtree of `e`:
/// the subtree's slots hold `Vacant` (their other contents stay), and `e`
/// is no longer listed among its parent's children.
pub open spec fn removed_elem(m: ManagerModel, e: int, i: int) -> ElemModel {
    if m.is_live(i) && m.in_subtree(i, e) {
        m.elems[i].with_value(ElemVal::Vacant)
    } else if i == m.parent_index(e) {
        m.elems[i].with_children(without(m.elems[i].children, e as usize))
    } else {
        m.elems[i]
    }
}

/// `m` and `n` have the same slots, the same freed slots and the same links;
/// they may differ in names, metadata and the values of live slots.
pub open spec fn same_links(m: ManagerModel, n: ManagerModel) -> bool {
    &&& n.elems.len() == m.elems.len()
    &&& n.vacant == m.vacant
    &&& forall|i: int|
        0 <= i < m.elems.len() ==> {
            &&& (#[trigger] n.elems[i]).parent == m.elems[i].parent
            &&& n.elems[i].children == m.elems[i].children
            &&& m.elems[i].value is Vacant && !m.is_live(i) ==> n.elems[i].value is Vacant
        }
}

/// Changing names, metadata or live values keeps the invariant.
pub proof fn lemma_same_links_wf(m: ManagerModel, n: ManagerModel)
    requires
        m.wf(),
        same_links(m, n),
    ensures
        n.wf(),
        forall|i: int| #[trigger] n.is_live(i) == m.is_live(i),
{
    assert forall|i: int| #[trigger] n.is_live(i) == m.is_live(i) by {}
    assert forall|i: int| 0 <= i < m.elems.len() implies #[trigger] n.parent_index(i) == m.parent_index(i) by {
        assert(n.elems[i].parent == m.elems[i].parent);
    }
    assert forall|k: int| 0 <= k < n.vacant.len() implies {
        &&& 0 < #[trigger] n.vacant[k] < n.elems.len()
        &&& n.elems[n.vacant[k] as int].value is Vacant
    } by {
        assert(m.vacant.contains(m.vacant[k]));
        assert(n.elems[m.vacant[k] as int].value is Vacant);
    }
    assert forall|i: int| #[trigger] n.is_live(i) && i != 0 implies n.parent_ok(i) by {
        assert(m.parent_ok(i));
        assert(n.elems[i].parent == m.elems[i].parent);
        assert(n.elems[m.parent_index(i)].children == m.elems[m.parent_index(i)].children);
    }
    assert forall|q: int| #[trigger] n.is_live(q) implies n.children_ok(q) by {
        assert(m.children_ok(q));
        assert(n.elems[q].children == m.elems[q].children);
        let cs = m.elems[q].children;
        assert forall|k: int| 0 <= k < cs.len() implies {
            &&& n.is_live(#[trigger] cs[k] as int)
            &&& cs[k] != 0
            &&& n.parent_index(cs[k] as int) == q
        } by {
            assert(m.is_live(cs[k] as int));
        }
    }
    let d = choose|d: Seq<nat>| m.depths_ok(d);
    assert(n.depths_ok(d));
}

/// `create` keeps the tree's invariant, and the slot it fills becomes live.
pub proof fn lemma_create_wf(m: ManagerModel, name: Seq<char>, value: ElemVal, p: int)
    requires
        m.wf(),
        m.is_live(p),
        m.vacant.len() > 0 || m.elems.len() < usize::MAX,
    ensures
        m.after_create(name, value, p).wf(),
        forall|i: int| #[trigger]
            m.after_create(name, value, p).is_live(i) <==> (m.is_live(i) || i == m.next_slot()),
{
    let n = m.after_create(name, value, p);
    let idx = m.next_slot();
    if m.vacant.len() > 0 {
        let k = m.vacant.len() - 1;
        assert(0 < m.vacant[k] < m.elems.len());
        assert(m.vacant.contains(m.vacant[k]));
    }
    assert(0 < idx <= m.elems.len());
    assert(!m.is_live(idx));
    assert(idx != p);
    assert forall|i: int| #[trigger] n.is_live(i) <==> (m.is_live(i) || i == idx) by {
        if m.vacant.len() > 0 {
            let k = m.vacant.len() - 1;
            if 0 <= i < m.elems.len() && n.vacant.contains(i as usize) {
                let j = choose|j: int| 0 <= j < n.vacant.len() && n.vacant[j] == i as usize;
                assert(m.vacant[j] == i as usize);
                assert(j != k);
            }
            if 0 <= i < m.elems.len() && m.vacant.contains(i as usize) && i != idx {
                let j = choose|j: int| 0 <= j < m.vacant.len() && m.vacant[j] == i as usize;
                assert(j != k);
                assert(n.vacant[j] == i as usize);
            }
        }
    }
    assert forall|i: int| 0 <= i < n.elems.len() && i != idx && i != p implies n.elems[i] == m.elems[i] by {}
    assert(n.elems[idx] == fresh_elem(name, value, p));
    assert(n.elems[p] == m.elems[p].with_children(m.elems[p].children.push(idx as usize)));
    assert forall|i: int| 0 <= i < n.elems.len() && i != idx implies n.parent_index(i) == m.parent_index(i) by {}
    assert(n.parent_index(idx) == p);
    // freed slots
    assert forall|k: int| 0 <= k < n.vacant.len() implies {
        &&& 0 < #[trigger] n.vacant[k] < n.elems.len()
        &&& n.elems[n.vacant[k] as int].value is Vacant
    } by {
        assert(m.vacant[k] == n.vacant[k]);
        assert(m.vacant.contains(n.vacant[k]));
        if m.vacant.len() > 0 {
            assert(n.vacant[k] != m.vacant[m.vacant.len() - 1]);
        }
    }
    // parent links
    assert forall|i: int| #[trigger] n.is_live(i) && i != 0 implies n.parent_ok(i) by {
        if i == idx {
            assert(n.elems[p].children.last() == idx as usize);
        } else {
            assert(m.is_live(i));
            assert(m.parent_ok(i));
            let q = m.parent_index(i);
            let j = choose|j: int| 0 <= j < m.elems[q].children.len() && m.elems[q].children[j] == i as usize;
            if q == p {
                assert(n.elems[q].children[j] == i as usize);
            } else {
                assert(n.elems[q] == m.elems[q]);
            }
        }
    }
    // child links
    assert forall|q: int| #[trigger] n.is_live(q) implies n.children_ok(q) by {
        if q == idx {
        } else if q == p {
            let cs = m.elems[p].children;
            assert(m.children_ok(p));
            let ncs = cs.push(idx as usize);
            assert forall|a: int, b: int| 0 <= a < ncs.len() && 0 <= b < ncs.len() && a != b implies #[trigger] ncs[a] != #[trigger] ncs[b] by {
                if b == cs.len() {
                    assert(m.is_live(cs[a] as int));
                } else if a == cs.len() {
                    assert(m.is_live(cs[b] as int));
                } else {
                    assert(ncs[a] == cs[a] && ncs[b] == cs[b]);
                }
            }
            assert forall|k: int| 0 <= k < cs.push(idx as usize).len() implies {
                &&& n.is_live(#[trigger] cs.push(idx as usize)[k] as int)
                &&& cs.push(idx as usize)[k] != 0
                &&& n.parent_index(cs.push(idx as usize)[k] as int) == p
            } by {
                if k < cs.len() {
                    assert(m.is_live(cs[k] as int));
                }
            }
        } else {
            assert(m.is_live(q));
            assert(m.children_ok(q));
            let cs = m.elems[q].children;
            assert forall|k: int| 0 <= k < cs.len() implies {
                &&& n.is_live(#[trigger] cs[k] as int)
                &&& cs[k] != 0
                &&& n.parent_index(cs[k] as int) == q
            } by {
                assert(m.is_live(cs[k] as int));
            }
        }
    }
    let d = choose|d: Seq<nat>| m.depths_ok(d);
    let nd = if m.vacant.len() > 0 {
        d.update(idx, d[p] + 1)
    } else {
        d.push(d[p] + 1)
    };
    assert forall|i: int| #[trigger] n.is_live(i) && i != 0 implies nd[n.parent_index(i)] < nd[i] by {
        if i != idx {
            assert(m.is_live(i));
            assert(n.parent_index(i) != idx);
        }
    }
    assert(n.depths_ok(nd));
}

/// The freed slots are distinct and lie in `1..len`, so there are fewer of
/// them than slots.
pub proof fn lemma_vacant_bound(m: ManagerModel)
    requires
        m.wf(),
    ensures
        m.vacant.len() <= m.elems.len() - 1,
        m.live_count() >= 0,
{
    lemma_distinct_below(m.vacant.map_values(|x: usize| (x - 1) as usize), (m.elems.len() - 1) as nat);
}

/// The set of naturals below `n` as `usize` values has `n` members.
pub proof fn lemma_below_set(n: nat)
    requires
        n <= usize::MAX + 1,
    ensures
        Set::new(|x: usize| x < n).finite(),
        Set::new(|x: usize| x < n).len() == n,
    decreases n,
{
    if n == 0 {
        assert(Set::new(|x: usize| x < n) =~= Set::<usize>::empty());
    } else {
        lemma_below_set((n - 1) as nat);
        assert(Set::new(|x: usize| x < n) =~= Set::new(|x: usize| x < (n - 1) as nat).insert(
            (n - 1) as usize,
        ));
    }
}

/// A sequence of distinct `usize` values, each below `n`, has at most `n`
/// entries.
pub proof fn lemma_distinct_below(s: Seq<usize>, n: nat)
    requires
        s.no_duplicates(),
        forall|i: int| 0 <= i < s.len() ==> s[i] < n,
    ensures
        s.len() <= n,
{
    if n <= usize::MAX + 1 {
        lemma_below_set(n);
        s.unique_seq_to_set();
        vstd::set_lib::lemma_len_subset(s.to_set(), Set::new(|x: usize| x < n));
    } else {
        assert(s.len() <= usize::MAX + 1) by {
            lemma_below_set((usize::MAX + 1) as nat);
            s.unique_seq_to_set();
            vstd::set_lib::lemma_len_subset(s.to_set(), Set::new(|x: usize| x < (usize::MAX + 1) as nat));
        }
    }
}

} // verus!
