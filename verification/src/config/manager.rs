use vstd::prelude::*;
use crate::config::value::ElemVal;
use crate::config::meta::MetaTable;
use crate::config::model::{
    ElemModel, ManagerModel, fresh_elem, lemma_create_wf, lemma_same_links_wf, lemma_vacant_bound, str_views,
    obtain_model, lemma_child_live, lemma_child_named_live, lemma_top_steps, lemma_ancestor_none_after, without,
    removed_elem, lemma_distinct_below,
};
use crate::config::lookup::{ElemLookup, LookupModel, lookup_matches};
use crate::config::search::{
    reached_by, reached, bfs_visit, descend_all, lemma_reach_inner_live, lemma_reach_child, lemma_reach_step_down, lemma_reach_first,
    lemma_parent_outside, lemma_subtree_step, lemma_subtree_of_parent, lemma_remove_wf,
};
use std::collections::VecDeque;
use crate::config::names::{validate_elem_name, valid_elem_name, invalid_name_message, str_eq};
use crate::config::text::{decimal, decimal_string};
use crate::config::laws::{lemma_value_change_wf, lemma_descendents_reach, lemma_create_values};

verus! {

/// A handle to an element slot of a `Manager`.
#[derive(Clone, Copy, Debug)]
pub struct ElemHandle(usize);

impl View for ElemHandle {
    type V = usize;

    closed spec fn view(&self) -> usize {
        self.0
    }
}

/// One element slot: a named value with its links and metadata.
#[derive(Debug)]
pub struct Element {
    name: String,
    value: ElemVal,
    parent: Option<ElemHandle>,
    children: Vec<ElemHandle>,
    meta: MetaTable,
}

pub open spec fn string_views(s: Seq<String>) -> Seq<Seq<char>> {
    s.map_values(|x: String| x@)
}

/// The elements a search by `descendents` descends through: those that
/// fail the lookup, or all of them when it looks past matches.
pub open spec fn search_open(m: ManagerModel, l: Seq<LookupModel>, past: bool) -> spec_fn(int) -> bool {
    |y: int| past || !lookup_matches(l, m.elems[y])
}

/// The elements of `s` that `l` matches, in order.
pub open spec fn keep_matching(m: ManagerModel, l: Seq<LookupModel>, s: Seq<usize>) -> Seq<usize>
    decreases s.len(),
{
    if s.len() == 0 {
        s
    } else {
        let rest = keep_matching(m, l, s.drop_first());
        if lookup_matches(l, m.elems[s[0] as int]) {
            seq![s[0]] + rest
        } else {
            rest
        }
    }
}

/// Every ancestor of `e` from 1 up to (not including) `k` steps exists and
/// fails `l`.
pub open spec fn no_match_within(m: ManagerModel, e: int, l: Seq<LookupModel>, k: nat) -> bool {
    forall|j: nat|
        1 <= j < k ==> #[trigger] m.ancestor_at(e, j) is Some && !lookup_matches(
            l,
            m.elems[m.ancestor_at(e, j).unwrap()],
        )
}

pub open spec fn handle_indices(s: Seq<ElemHandle>) -> Seq<usize> {
    s.map_values(|h: ElemHandle| h@)
}

pub open spec fn handle_index(h: Option<ElemHandle>) -> Option<usize> {
    match h {
        Some(h) => Some(h@),
        None => None,
    }
}

impl View for Element {
    type V = ElemModel;

    closed spec fn view(&self) -> ElemModel {
        ElemModel {
            name: self.name@,
            value: self.value,
            parent: handle_index(self.parent),
            children: handle_indices(self.children@),
            meta: self.meta@,
        }
    }
}

/// The owner of a configuration tree.
#[derive(Debug)]
pub struct Manager {
    elems: Vec<Element>,
    /// Freed slots, reused by later creations (last freed first).
    vacant: Vec<usize>,
}

pub open spec fn elem_models(s: Seq<Element>) -> Seq<ElemModel> {
    s.map_values(|e: Element| e@)
}

impl View for Manager {
    type V = ManagerModel;

    closed spec fn view(&self) -> ManagerModel {
        ManagerModel { elems: elem_models(self.elems@), vacant: self.vacant@ }
    }
}

/// The slot a `create` call links under: the given parent, or the root.
pub open spec fn parent_slot(parent: Option<ElemHandle>) -> int {
    match parent {
        Some(p) => p@ as int,
        None => 0,
    }
}

impl ElemHandle {
    fn new(i: usize) -> (r: Self)
        ensures
            r@ == i,
    {
        ElemHandle(i)
    }

    fn root() -> (r: Self)
        ensures
            r@ == 0,
    {
        ElemHandle(0)
    }

    fn is_root(&self) -> (r: bool)
        ensures
            r == (self@ == 0),
    {
        self.0 == 0
    }
}

impl Element {
    /// A new element, with no children and no metadata, linked up to
    /// `parent`.
    fn new(name: &str, value: ElemVal, parent: Option<ElemHandle>) -> (r: Self)
        requires
            parent matches Some(p) ==> p@ != 0,
        ensures
            r@ == fresh_elem(name@, value, parent_slot(parent)),
    {
        let r = Element {
            name: name.to_owned(),
            value,
            parent,
            children: Vec::new(),
            meta: MetaTable::new(),
        };
        proof {
            assert(handle_indices(r.children@) =~= Seq::<usize>::empty());
        }
        r
    }

    /// Whether the slot holds the `Vacant` filler.
    pub(crate) fn value_is_vacant(&self) -> (r: bool)
        ensures
            r == self@.value is Vacant,
    {
        matches!(self.value, ElemVal::Vacant)
    }

    /// The parent link.
    pub(crate) fn parent_handle(&self) -> (r: Option<ElemHandle>)
        ensures
            handle_index(r) == self@.parent,
    {
        self.parent
    }

    /// The child links, in order.
    pub(crate) fn child_handles(&self) -> (r: &Vec<ElemHandle>)
        ensures
            handle_indices(r@) == self@.children,
    {
        &self.children
    }

    /// The element's name.
    pub fn name(&self) -> (r: &str)
        ensures
            r@ == self@.name,
    {
        self.name.as_str()
    }

    /// The metadata value stored under `name`.
    pub fn get_meta(&self, name: &str) -> (r: Option<&String>)
        ensures
            match r {
                Some(v) => self@.meta.contains_key(name@) && v@ == self@.meta[name@],
                None => !self@.meta.contains_key(name@),
            },
    {
        self.meta.get(name)
    }

    /// Whether metadata is stored under `name`.
    pub fn has_meta(&self, name: &str) -> (r: bool)
        ensures
            r == self@.meta.contains_key(name@),
    {
        self.meta.contains(name)
    }
}

impl Manager {
    /// The tree's invariant holds.
    pub open spec fn wf(&self) -> bool {
        self@.wf()
    }

    /// A tree holding only its hidden root: an unnamed `Object` in slot 0
    /// under which the top-level elements are listed.
    pub fn new() -> (r: Manager)
        ensures
            r.wf(),
            r@.elems == seq![fresh_elem(Seq::empty(), ElemVal::Object, 0)],
            r@.vacant == Seq::<usize>::empty(),
    {
        let mut elems: Vec<Element> = Vec::new();
        elems.push(Element::new("", ElemVal::Object, None));
        let r = Manager { elems, vacant: Vec::new() };
        proof {
            reveal_strlit("");
            assert(""@ =~= Seq::<char>::empty());
            assert(r@.elems =~= seq![fresh_elem(Seq::empty(), ElemVal::Object, 0)]);
            assert(r@.depths_ok(seq![0nat]));
        }
        r
    }

    /// The handle of the hidden root.
    pub fn root(&self) -> (r: ElemHandle)
        ensures
            r@ == 0,
    {
        ElemHandle(0)
    }

    /// The element in slot `e`.
    pub fn elem(&self, e: ElemHandle) -> (r: &Element)
        requires
            e@ < self@.elems.len(),
        ensures
            r@ == self@.elems[e@ as int],
    {
        &self.elems[e.0]
    }

    /// Creates a new element named `name` holding `value`, listed under
    /// `parent`, or at top level when `parent` is `None`. The element takes
    /// the most recently freed slot if there is one, else a new slot.
    pub fn create(&mut self, name: &str, value: ElemVal, parent: Option<ElemHandle>) -> (r: Result<
        ElemHandle,
        String,
    >)
        requires
            old(self).wf(),
            parent matches Some(p) ==> old(self)@.is_live(p@ as int),
        ensures
            final(self).wf(),
            r matches Ok(h) ==> final(self)@.is_live(h@ as int),
            r is Ok <==> (name@.len() > 0 && name@ != "Meta"@ && name@ != "Value"@),
            valid_elem_name(name@) ==> (r matches Ok(h) && h@ == old(self)@.next_slot()
                && final(self)@ == old(self)@.after_create(name@, value, parent_slot(parent))),
            !valid_elem_name(name@) ==> (r matches Err(msg) && msg@ == invalid_name_message(name@)
                && final(self)@ == old(self)@),
    {
        match validate_elem_name(name) {
            Err(msg) => return Err(msg),
            Ok(()) => {},
        }
        let ghost m0 = self@;
        let ghost p_slot = parent_slot(parent);
        let idx: usize = if self.vacant.len() > 0 {
            let i = self.vacant.pop().unwrap();
            i
        } else {
            self.elems.len()
        };
        let p = match parent {
            Some(p) => p,
            None => ElemHandle::root(),
        };
        let link = if p.is_root() { None } else { Some(p) };
        let elem = Element::new(name, value, link);
        let ghost placed = if m0.vacant.len() > 0 {
            m0.elems.update(idx as int, fresh_elem(name@, value, p_slot))
        } else {
            m0.elems.push(fresh_elem(name@, value, p_slot))
        };
        if idx < self.elems.len() {
            self.elems.set(idx, elem);
        } else {
            self.elems.push(elem);
            let _ = self.elems.len();
        }
        assert(elem_models(self.elems@) =~= placed);
        let ghost before = self.elems@;
        self.elems[p.0].children.push(ElemHandle::new(idx));
        proof {
            let pe = before[p@ as int];
            assert(handle_indices(self.elems@[p@ as int].children@) =~= handle_indices(
                pe.children@,
            ).push(idx));
            assert(self.elems@ == before.update(p@ as int, self.elems@[p@ as int]));
            assert(self.elems@[p@ as int]@ == pe@.with_children(pe@.children.push(idx)));
            lemma_create_wf(m0, name@, value, p_slot);
            assert(elem_models(self.elems@) =~= m0.after_create(name@, value, p_slot).elems);
        }
        Ok(ElemHandle::new(idx))
    }

    /// The number of elements in the tree, the hidden root not counted.
    pub fn len(&self) -> (r: usize)
        requires
            self.wf(),
        ensures
            r == self@.live_count(),
    {
        proof {
            lemma_vacant_bound(self@);
        }
        self.elems.len() - 1 - self.vacant.len()
    }

    /// The name of the element in slot `e`.
    pub fn name(&self, e: ElemHandle) -> (r: &str)
        requires
            e@ < self@.elems.len(),
        ensures
            r@ == self@.elems[e@ as int].name,
    {
        self.elems[e.0].name()
    }

    /// The value of the element in slot `e`.
    pub fn value(&self, e: ElemHandle) -> (r: &ElemVal)
        requires
            e@ < self@.elems.len(),
        ensures
            *r == self@.elems[e@ as int].value,
    {
        &self.elems[e.0].value
    }

    /// A mutable reference to the value of element `e`, so that it can be
    /// changed in place.
    pub fn value_mut(&mut self, e: ElemHandle) -> (r: &mut ElemVal)
        requires
            old(self).wf(),
            old(self)@.is_live(e@ as int),
        ensures
            *r == old(self)@.elems[e@ as int].value,
            final(self).wf(),
            final(self)@.vacant == old(self)@.vacant,
            final(self)@.elems =~= old(self)@.elems.update(
                e@ as int,
                old(self)@.elems[e@ as int].with_value(*final(r)),
            ),
    {
        proof {
            let m0 = self@;
            let ei = e@ as int;
            assert forall|n: ManagerModel|
                n.vacant == m0.vacant && n.elems =~= m0.elems.update(ei, m0.elems[ei].with_value(n.elems[ei].value))
                    implies #[trigger] n.wf() by {
                let v = n.elems[ei].value;
                lemma_value_change_wf(m0, ei, v);
                let w = m0.with_elem(ei, m0.elems[ei].with_value(v));
                assert(n.elems == w.elems);
                assert(n == w);
            }
        }
        &mut self.elems[e.0].value
    }

    /// Renames element `e`.
    pub fn rename(&mut self, e: ElemHandle, name: &str) -> (r: Result<(), String>)
        requires
            old(self).wf(),
            e@ < old(self)@.elems.len(),
        ensures
            final(self).wf(),
            r is Ok <==> (name@.len() > 0 && name@ != "Meta"@ && name@ != "Value"@),
            valid_elem_name(name@) ==> (r is Ok && final(self)@ == old(self)@.with_elem(
                e@ as int,
                old(self)@.elems[e@ as int].with_name(name@),
            )),
            !valid_elem_name(name@) ==> (r matches Err(msg) && msg@ == invalid_name_message(name@)
                && final(self)@ == old(self)@),
    {
        match validate_elem_name(name) {
            Err(msg) => return Err(msg),
            Ok(()) => {},
        }
        let ghost m0 = self@;
        self.elems[e.0].name = name.to_owned();
        proof {
            let n = m0.with_elem(e@ as int, m0.elems[e@ as int].with_name(name@));
            assert(self@.elems =~= n.elems);
            lemma_same_links_wf(m0, n);
        }
        Ok(())
    }

    /// Stores metadata `value` under `name` on element `e`.
    pub fn set_meta(&mut self, e: ElemHandle, name: &str, value: &str)
        requires
            old(self).wf(),
            e@ < old(self)@.elems.len(),
        ensures
            final(self).wf(),
            final(self)@ == old(self)@.with_elem(
                e@ as int,
                old(self)@.elems[e@ as int].with_meta(old(self)@.elems[e@ as int].meta.insert(name@, value@)),
            ),
    {
        let ghost m0 = self@;
        self.elems[e.0].meta.insert(name, value);
        proof {
            let n = m0.with_elem(
                e@ as int,
                m0.elems[e@ as int].with_meta(m0.elems[e@ as int].meta.insert(name@, value@)),
            );
            assert(self@.elems =~= n.elems);
            lemma_same_links_wf(m0, n);
        }
    }

    /// The metadata value stored under `name` on element `e`.
    pub fn get_meta(&self, e: ElemHandle, name: &str) -> (r: Option<&String>)
        requires
            e@ < self@.elems.len(),
        ensures
            match r {
                Some(v) => self@.elems[e@ as int].meta.contains_key(name@) && v@ == self@.elems[e@ as int].meta[name@],
                None => !self@.elems[e@ as int].meta.contains_key(name@),
            },
    {
        self.elems[e.0].get_meta(name)
    }

    /// Whether element `e` has metadata stored under `name`.
    pub fn has_meta(&self, e: ElemHandle, name: &str) -> (r: bool)
        requires
            e@ < self@.elems.len(),
        ensures
            r == self@.elems[e@ as int].meta.contains_key(name@),
    {
        self.elems[e.0].has_meta(name)
    }

    /// The children of element `e`, in the order they were added.
    pub fn children(&self, e: ElemHandle) -> (r: &Vec<ElemHandle>)
        requires
            e@ < self@.elems.len(),
        ensures
            handle_indices(r@) == self@.elems[e@ as int].children,
    {
        &self.elems[e.0].children
    }

    /// A mutable reference to the children of element `e`. Whatever the
    /// caller leaves there becomes the element's child list; nothing keeps
    /// the tree's invariant across such a change.
    pub fn children_mut(&mut self, e: ElemHandle) -> (r: &mut Vec<ElemHandle>)
        requires
            e@ < old(self)@.elems.len(),
        ensures
            handle_indices(r@) == old(self)@.elems[e@ as int].children,
            final(self)@.vacant == old(self)@.vacant,
            final(self)@.elems =~= old(self)@.elems.update(
                e@ as int,
                old(self)@.elems[e@ as int].with_children(handle_indices(final(r)@)),
            ),
    {
        &mut self.elems[e.0].children
    }

    /// The parent of element `e`; `None` for top-level elements and the root.
    pub fn parent(&self, e: ElemHandle) -> (r: Option<ElemHandle>)
        requires
            e@ < self@.elems.len(),
        ensures
            handle_index(r) == self@.elems[e@ as int].parent,
    {
        self.elems[e.0].parent
    }

    /// Whether slot `e` holds the `Vacant` filler, which marks a removed
    /// element.
    pub fn is_vacant(&self, e: ElemHandle) -> (r: bool)
        requires
            e@ < self@.elems.len(),
        ensures
            r == self@.elems[e@ as int].value is Vacant,
    {
        matches!(self.elems[e.0].value, ElemVal::Vacant)
    }

    /// The first child of `e` named `name`.
    pub fn lookup_child(&self, e: ElemHandle, name: &str) -> (r: Option<ElemHandle>)
        requires
            self.wf(),
            self@.is_live(e@ as int),
        ensures
            handle_index(r) == self@.child_named(e@ as int, name@),
    {
        let cs = &self.elems[e.0].children;
        let ghost ci = handle_indices(cs@);
        let mut k: usize = 0;
        assert(ci.skip(0) =~= ci);
        while k < cs.len()
            invariant
                self.wf(),
                self@.is_live(e@ as int),
                ci == handle_indices(cs@),
                ci == self@.elems[e@ as int].children,
                k <= cs@.len(),
                self@.first_named(ci.skip(k as int), name@) == self@.child_named(e@ as int, name@),
            decreases cs@.len() - k,
        {
            let c = cs[k];
            proof {
                assert(ci[k as int] == c@);
                lemma_child_live(self@, e@ as int, k as int);
                assert(ci.skip(k as int).drop_first() =~= ci.skip(k + 1));
                assert(ci.skip(k as int)[0] == c@);
            }
            if str_eq(self.elems[c.0].name(), name) {
                return Some(c);
            }
            k = k + 1;
        }
        proof {
            assert(ci.skip(k as int).len() == 0);
        }
        None
    }

    /// The element reached from the root by following `hierarchy`, each
    /// step to the first child so named; `None` when a step finds no child.
    pub fn lookup(&self, hierarchy: &Vec<&str>) -> (r: Option<ElemHandle>)
        requires
            self.wf(),
        ensures
            handle_index(r) == self@.path_from(0, str_views(hierarchy@)),
    {
        let ghost names = str_views(hierarchy@);
        let mut e = ElemHandle::root();
        let mut i: usize = 0;
        assert(names.skip(0) =~= names);
        while i < hierarchy.len()
            invariant
                self.wf(),
                self@.is_live(e@ as int),
                names == str_views(hierarchy@),
                i <= hierarchy@.len(),
                self@.path_from(0, names) == self@.path_from(e@ as int, names.skip(i as int)),
            decreases hierarchy@.len() - i,
        {
            proof {
                lemma_child_named_live(self@, e@ as int, hierarchy@[i as int]@);
                assert(names.skip(i as int)[0] == hierarchy@[i as int]@);
                assert(names.skip(i as int).drop_first() =~= names.skip(i + 1));
            }
            match self.lookup_child(e, hierarchy[i]) {
                Some(c) => {
                    e = c;
                },
                None => {
                    return None;
                },
            }
            i = i + 1;
        }
        proof {
            assert(names.skip(i as int) =~= Seq::<Seq<char>>::empty());
            assert(e@ as int as usize == e@);
        }
        Some(e)
    }

    /// The element at `hierarchy`, created along with any missing elements
    /// on the way (new elements hold `Null`). Fails on the first missing
    /// name that is not a valid element name; elements created before it
    /// stay.
    pub fn obtain(&mut self, hierarchy: &Vec<&str>) -> (r: Result<ElemHandle, String>)
        requires
            old(self).wf(),
        ensures
            final(self).wf(),
            (final(self)@, match r {
                Ok(h) => Ok(h@),
                Err(msg) => Err(msg@),
            }) == obtain_model(old(self)@, 0, str_views(hierarchy@)),
            forall|x: int|
                #[trigger] final(self)@.is_live(x) && !old(self)@.is_live(x) ==> final(self)@.elems[x].value
                    == ElemVal::Null,
            forall|x: int|
                #[trigger] old(self)@.is_live(x) ==> final(self)@.is_live(x) && final(self)@.elems[x].value == old(
                    self,
                )@.elems[x].value,
    {
        let ghost names = str_views(hierarchy@);
        let ghost m0 = self@;
        let mut e = ElemHandle::root();
        let mut i: usize = 0;
        assert(names.skip(0) =~= names);
        while i < hierarchy.len()
            invariant
                self.wf(),
                self@.is_live(e@ as int),
                names == str_views(hierarchy@),
                i <= hierarchy@.len(),
                old(self)@ == m0,
                obtain_model(m0, 0, names) == obtain_model(self@, e@ as int, names.skip(i as int)),
                forall|x: int| #[trigger] self@.is_live(x) && !m0.is_live(x) ==> self@.elems[x].value == ElemVal::Null,
                forall|x: int| #[trigger] m0.is_live(x) ==> self@.is_live(x) && self@.elems[x].value == m0.elems[x].value,
            decreases hierarchy@.len() - i,
        {
            let ghost mi = self@;
            let ghost rest = names.skip(i as int);
            proof {
                lemma_child_named_live(self@, e@ as int, hierarchy@[i as int]@);
                assert(rest[0] == hierarchy@[i as int]@);
                assert(rest.drop_first() =~= names.skip(i + 1));
            }
            match self.lookup_child(e, hierarchy[i]) {
                Some(c) => {
                    e = c;
                },
                None => {
                    let parent = if e.is_root() { None } else { Some(e) };
                    match self.create(hierarchy[i], ElemVal::Null, parent) {
                        Ok(h) => {
                            proof {
                                let ei = e@ as int;
                                assert(parent_slot(parent) == ei);
                                assert(mi.vacant.len() > 0 || mi.elems.len() < usize::MAX);
                                lemma_create_values(mi, hierarchy@[i as int]@, ElemVal::Null, ei);
                                assert forall|x: int| #[trigger] self@.is_live(x) && !m0.is_live(x) implies self@.elems[x].value
                                    == ElemVal::Null by {
                                    if mi.is_live(x) {
                                    } else {
                                        assert(x == mi.next_slot());
                                    }
                                }
                                assert forall|x: int| #[trigger] m0.is_live(x) implies self@.is_live(x) && self@.elems[x].value
                                    == m0.elems[x].value by {
                                    assert(mi.is_live(x));
                                }
                            }
                            e = h;
                        },
                        Err(msg) => {
                            assert(obtain_model(mi, e@ as int, rest) == (mi, Err::<usize, Seq<char>>(msg@)));
                            return Err(msg);
                        },
                    }
                },
            }
            i = i + 1;
        }
        proof {
            assert(names.skip(i as int) =~= Seq::<Seq<char>>::empty());
            assert(e@ as int as usize == e@);
        }
        Ok(e)
    }

    /// The names from the top-level ancestor of `e` down to `e` itself.
    pub fn hierarchy(&self, e: ElemHandle) -> (r: Vec<String>)
        requires
            self.wf(),
            self@.is_live(e@ as int),
        ensures
            r@.len() == self@.hierarchy_names(e@ as int).len(),
            forall|i: int| 0 <= i < r@.len() ==> (#[trigger] r@[i])@ == self@.hierarchy_names(e@ as int)[i],
    {
        let ghost m = self@;
        let ghost d = choose|d: Seq<nat>| m.depths_ok(d);
        let ghost ei = e@ as int;
        let mut h: Vec<String> = Vec::new();
        let mut x = e;
        let ghost mut k: nat = 0;
        loop
            invariant_except_break
                h@.len() == k,
            invariant
                self@ == m,
                m.wf(),
                m.depths_ok(d),
                m.is_live(x@ as int),
                m.ancestor_at(ei, k) == Some(x@ as int),
                forall|j: int| 0 <= j < h@.len() ==> #[trigger] m.ancestor_at(ei, j as nat) is Some,
                string_views(h@) =~= Seq::new(h@.len(), |j: int| m.elems[m.ancestor_at(ei, j as nat).unwrap()].name),
            ensures
                h@.len() == k + 1,
                m.is_top_at(ei, k),
            decreases d[x@ as int],
        {
            let ghost h0 = h@;
            h.push(self.elems[x.0].name.clone());
            proof {
                assert(h@[k as int]@ == m.elems[x@ as int].name);
                assert(string_views(h@) =~= string_views(h0).push(m.elems[x@ as int].name));
                assert(string_views(h@) =~= Seq::new(h@.len(), |j: int| m.elems[m.ancestor_at(ei, j as nat).unwrap()].name));
            }
            match self.elems[x.0].parent {
                Some(p) => {
                    proof {
                        assert(m.parent_ok(x@ as int));
                        assert(m.parent_index(x@ as int) == p@ as int);
                        assert(x@ != 0);
                    }
                    x = p;
                    proof {
                        k = k + 1;
                    }
                },
                None => {
                    break;
                },
            }
        }
        proof {
            lemma_top_steps(m, ei, k);
        }
        let mut r: Vec<String> = Vec::new();
        let mut j: usize = h.len();
        while j > 0
            invariant
                j <= h@.len(),
                h@.len() == k + 1,
                r@.len() == h@.len() - j,
                forall|i: int| 0 <= i < r@.len() ==> (#[trigger] r@[i]) == h@[h@.len() - 1 - i],
            decreases j,
        {
            j = j - 1;
            r.push(h[j].clone());
        }
        proof {
            let hn = m.hierarchy_names(ei);
            assert forall|i: int| 0 <= i < r@.len() implies (#[trigger] r@[i])@ == hn[i] by {
                assert(r@[i] == h@[k - i]);
                assert(string_views(h@)[k - i] == h@[k - i]@);
                assert(h@[k - i]@ == hn[i]);
            }
        }
        r
    }

    /// The nearest ancestor of `e` (its parent, its parent's parent, and so
    /// on, the hidden root excluded) that `lookup` matches.
    pub fn ancestor(&self, e: ElemHandle, lookup: &ElemLookup) -> (r: Option<ElemHandle>)
        requires
            self.wf(),
            self@.is_live(e@ as int),
        ensures
            r matches Some(a) ==> exists|k: nat|
                {
                    &&& k >= 1
                    &&& #[trigger] self@.ancestor_at(e@ as int, k) == Some(a@ as int)
                    &&& lookup_matches(lookup@, self@.elems[a@ as int])
                    &&& no_match_within(self@, e@ as int, lookup@, k)
                },
            r is None ==> forall|j: nat|
                j >= 1 && #[trigger] self@.ancestor_at(e@ as int, j) is Some ==> !lookup_matches(
                    lookup@,
                    self@.elems[self@.ancestor_at(e@ as int, j).unwrap()],
                ),
    {
        let ghost m = self@;
        let ghost d = choose|d: Seq<nat>| m.depths_ok(d);
        let ghost ei = e@ as int;
        let mut x = e;
        let ghost mut k: nat = 0;
        loop
            invariant
                self@ == m,
                m.wf(),
                m.depths_ok(d),
                m.is_live(x@ as int),
                m.ancestor_at(ei, k) == Some(x@ as int),
                no_match_within(m, ei, lookup@, k + 1),
                ei == e@ as int,
            decreases d[x@ as int],
        {
            match self.elems[x.0].parent {
                Some(p) => {
                    proof {
                        assert(m.parent_ok(x@ as int));
                        assert(m.parent_index(x@ as int) == p@ as int);
                        assert(m.ancestor_at(ei, k + 1) == Some(p@ as int));
                    }
                    if lookup.matches(&self.elems[p.0]) {
                        proof {
                            assert(m.ancestor_at(ei, k + 1) == Some(p@ as int));
                            assert(m.elems[p@ as int] == self.elems@[p@ as int]@);
                            assert(lookup_matches(lookup@, m.elems[p@ as int]));
                        }
                        return Some(p);
                    }
                    x = p;
                    proof {
                        assert forall|j: nat| 1 <= j < k + 2 implies #[trigger] m.ancestor_at(ei, j) is Some
                            && !lookup_matches(lookup@, m.elems[m.ancestor_at(ei, j).unwrap()]) by {
                            if j < k + 1 {
                                assert(no_match_within(m, ei, lookup@, k + 1));
                            }
                        }
                        k = k + 1;
                    }
                },
                None => {
                    proof {
                        assert(m.ancestor_at(ei, k + 1) is None);
                        assert forall|j: nat| j >= 1 && #[trigger] m.ancestor_at(ei, j) is Some implies !lookup_matches(
                            lookup@, m.elems[m.ancestor_at(ei, j).unwrap()]) by {
                            if j > k {
                                lemma_ancestor_none_after(m, ei, k + 1, (j - k - 1) as nat);
                            } else {
                                assert(no_match_within(m, ei, lookup@, k + 1));
                            }
                        }
                    }
                    return None;
                },
            }
        }
    }

    /// Appends the children of `x` to the queue `q`.
    fn push_children(&self, x: ElemHandle, q: &mut VecDeque<ElemHandle>)
        requires
            x@ < self@.elems.len(),
        ensures
            handle_indices(final(q)@) == handle_indices(old(q)@) + self@.elems[x@ as int].children,
    {
        let cs = &self.elems[x.0].children;
        let mut k: usize = 0;
        while k < cs.len()
            invariant
                k <= cs@.len(),
                cs@ == self.elems@[x@ as int].children@,
                handle_indices(q@) =~= handle_indices(old(q)@) + handle_indices(cs@.take(k as int)),
            decreases cs@.len() - k,
        {
            let ghost qb = q@;
            q.push_back(cs[k]);
            proof {
                assert(cs@.take(k + 1) =~= cs@.take(k as int).push(cs@[k as int]));
                assert(handle_indices(q@) =~= handle_indices(qb).push(cs@[k as int]@));
                assert(handle_indices(cs@.take(k + 1)) =~= handle_indices(cs@.take(k as int)).push(cs@[k as int]@));
            }
            k = k + 1;
        }
        proof {
            assert(cs@.take(k as int) =~= cs@);
        }
    }

    /// The elements below `e` that `lookup` matches, in breadth-first
    /// order. The search descends below a match only when
    /// `look_past_match` is set; below other elements it always descends.
    pub fn descendents(&self, e: ElemHandle, lookup: &ElemLookup, look_past_match: bool) -> (r: Vec<ElemHandle>)
        requires
            self.wf(),
            self@.is_live(e@ as int),
        ensures
            handle_indices(r@) == keep_matching(
                self@,
                lookup@,
                bfs_visit(
                    self@,
                    search_open(self@, lookup@, look_past_match),
                    self@.elems[e@ as int].children,
                    self@.elems.len(),
                ),
            ),
            handle_indices(r@).no_duplicates(),
            forall|x: usize|
                #[trigger] handle_indices(r@).contains(x) <==> reached(
                    self@,
                    e@ as int,
                    search_open(self@, lookup@, look_past_match),
                    x as int,
                ) && lookup_matches(lookup@, self@.elems[x as int]),
            forall|x: usize, k: nat|
                #![trigger handle_indices(r@).contains(x), self@.up(x as int, k)]
                self@.is_live(x as int) && x as int != e@ as int && k >= 1 && self@.up(x as int, k) == e@ as int
                    && (forall|j: nat| 1 <= j < k ==> #[trigger] self@.up(x as int, j) != e@ as int
                    && !lookup_matches(lookup@, self@.elems[self@.up(x as int, j)]))
                    && lookup_matches(lookup@, self@.elems[x as int]) ==> handle_indices(r@).contains(x),
    {
        let ghost m = self@;
        let ghost d = choose|d: Seq<nat>| m.depths_ok(d);
        let ghost ei = e@ as int;
        let ghost open = search_open(m, lookup@, look_past_match);
        let mut q: VecDeque<ElemHandle> = VecDeque::new();
        let mut found: Vec<ElemHandle> = Vec::new();
        let ghost mut vis: Seq<usize> = Seq::empty();
        proof {
            assert(handle_indices(q@) =~= Seq::<usize>::empty());
        }
        self.push_children(e, &mut q);
        proof {
            let qi = handle_indices(q@);
            assert(m.children_ok(ei));
            assert forall|i: int| 0 <= i < qi.len() implies reached(m, ei, open, #[trigger] qi[i] as int) by {
                lemma_child_live(m, ei, i);
                lemma_reach_first(m, ei, open, qi[i] as int);
            }
            assert forall|x: usize, k: nat| #[trigger] reached_by(m, ei, open, x as int, k) implies vis.contains(x)
                || exists|j: nat| j < k && qi.contains(#[trigger] m.up(x as int, j) as usize) by {
                let j = (k - 1) as nat;
                lemma_reach_inner_live(m, d, ei, open, x as int, k, j);
                let c = m.up(x as int, j);
                assert(m.parent_ok(c));
                assert(m.up(x as int, k) == m.parent_index(c));
                assert(qi.contains(c as usize));
            }
            assert(vis + qi =~= qi);
            assert(qi == m.elems[ei].children);
            assert(handle_indices(found@) =~= Seq::<usize>::empty());
            assert(Seq::<usize>::empty() + keep_matching(m, lookup@, bfs_visit(m, open, qi, m.elems.len()))
                =~= keep_matching(m, lookup@, bfs_visit(m, open, qi, m.elems.len())));
            assert forall|i: int| 0 <= i < (vis + qi).len() implies m.parent_index(#[trigger] (vis + qi)[i] as int) == ei
                || vis.contains(m.parent_index((vis + qi)[i] as int) as usize) by {
                lemma_child_live(m, ei, i);
            }
        }
        while q.len() > 0
            invariant
                self@ == m,
                m.wf(),
                m.depths_ok(d),
                ei == e@ as int,
                m.is_live(ei),
                open == search_open(m, lookup@, look_past_match),
                forall|i: int| 0 <= i < handle_indices(q@).len() ==> reached(m, ei, open, #[trigger] handle_indices(q@)[i] as int),
                forall|i: int| 0 <= i < vis.len() ==> reached(m, ei, open, #[trigger] vis[i] as int),
                (vis + handle_indices(q@)).no_duplicates(),
                forall|i: int| 0 <= i < (vis + handle_indices(q@)).len() ==> m.parent_index(#[trigger] (vis + handle_indices(q@))[i] as int) == ei
                    || vis.contains(m.parent_index((vis + handle_indices(q@))[i] as int) as usize),
                forall|x: usize, k: nat| #[trigger] reached_by(m, ei, open, x as int, k) ==> vis.contains(x)
                    || exists|j: nat| j < k && handle_indices(q@).contains(#[trigger] m.up(x as int, j) as usize),
                handle_indices(found@).no_duplicates(),
                forall|x: usize| #[trigger] handle_indices(found@).contains(x) <==> vis.contains(x) && lookup_matches(lookup@, m.elems[x as int]),
                vis.len() <= m.elems.len(),
                handle_indices(found@) + keep_matching(
                    m,
                    lookup@,
                    bfs_visit(m, open, handle_indices(q@), (m.elems.len() - vis.len()) as nat),
                ) == keep_matching(m, lookup@, bfs_visit(m, open, m.elems[ei].children, m.elems.len())),
            decreases m.elems.len() - vis.len(),
        {
            let ghost q0 = handle_indices(q@);
            let ghost vis0 = vis;
            let x = q.pop_front().unwrap();
            proof {
                assert(q0[0] == x@);
                assert(handle_indices(q@) =~= q0.drop_first());
                assert(reached(m, ei, open, x@ as int));
            }
            proof {
                assert(!vis0.contains(x@)) by {
                    if vis0.contains(x@) {
                        let i = choose|i: int| 0 <= i < vis0.len() && vis0[i] == x@;
                        assert((vis0 + q0)[i] == (vis0 + q0)[vis0.len() as int]);
                    }
                }
                assert(!handle_indices(found@).contains(x@));
            }
            let ghost f0 = handle_indices(found@);
            let matched = lookup.matches(&self.elems[x.0]);
            if matched {
                found.push(x);
                proof {
                    assert(handle_indices(found@) =~= f0.push(x@));
                }
            }
            let ghost q1 = handle_indices(q@);
            let ghost xi = x@ as int;
            let ghost kx = choose|k: nat| reached_by(m, ei, open, xi, k);
            proof {
                assert(m.elems[xi] == self.elems@[xi]@);
                assert(matched == lookup_matches(lookup@, m.elems[xi]));
            }
            let expand = !matched || look_past_match;
            if expand {
                self.push_children(x, &mut q);
            }
            proof {
                let cs = m.elems[xi].children;
                let q2 = handle_indices(q@);
                assert(expand ==> q2 == q1 + cs);
                assert(!expand ==> q2 == q1);
                assert(expand ==> open(xi));
                vis = vis0.push(x@);
                // every queued element is reached
                assert forall|i: int| 0 <= i < q2.len() implies reached(m, ei, open, #[trigger] q2[i] as int) by {
                    if i < q1.len() {
                        assert(q2[i] == q0[i + 1]);
                    } else {
                        let t = i - q1.len();
                        assert(q2[i] == cs[t]);
                        lemma_child_live(m, xi, t);
                        lemma_reach_child(m, d, ei, open, xi, kx, cs[t] as int);
                    }
                }
                assert forall|i: int| 0 <= i < vis.len() implies reached(m, ei, open, #[trigger] vis[i] as int) by {
                    if i < vis0.len() {
                        assert(vis[i] == vis0[i]);
                    }
                }
                // links back to visited elements
                assert(vis + q1 =~= vis0 + q0);
                assert forall|i: int| 0 <= i < (vis + q2).len() implies m.parent_index(#[trigger] (vis + q2)[i] as int) == ei
                    || vis.contains(m.parent_index((vis + q2)[i] as int) as usize) by {
                    if i < (vis + q1).len() {
                        assert((vis + q2)[i] == (vis0 + q0)[i]);
                        let pi = m.parent_index((vis0 + q0)[i] as int);
                        if vis0.contains(pi as usize) {
                            let j = choose|j: int| 0 <= j < vis0.len() && vis0[j] == pi as usize;
                            assert(vis[j] == pi as usize);
                        }
                    } else {
                        let t = i - (vis + q1).len();
                        assert((vis + q2)[i] == cs[t]);
                        lemma_child_live(m, xi, t);
                        assert(vis[vis0.len() as int] == x@);
                        assert(x@ as int as usize == x@);
                    }
                }
                // no element twice
                assert forall|a: int, b: int| 0 <= a < (vis + q2).len() && 0 <= b < (vis + q2).len() && a != b implies
                    #[trigger] (vis + q2)[a] != #[trigger] (vis + q2)[b] by {
                    let w = vis + q2;
                    let old_len = (vis + q1).len();
                    if a < old_len && b < old_len {
                        assert(w[a] == (vis0 + q0)[a] && w[b] == (vis0 + q0)[b]);
                    } else if a >= old_len && b >= old_len {
                        assert(m.children_ok(xi));
                        assert(w[a] == cs[a - old_len] && w[b] == cs[b - old_len]);
                    } else {
                        let (o, n) = if a < old_len { (a, b) } else { (b, a) };
                        let t = n - old_len;
                        assert(w[n] == cs[t]);
                        lemma_child_live(m, xi, t);
                        assert(w[o] == (vis0 + q0)[o]);
                        if w[o] == w[n] {
                            // the parent of w[o] is x, which was neither visited nor the start
                            assert(m.parent_index((vis0 + q0)[o] as int) == xi);
                            if vis0.contains(x@) {
                            }
                        }
                    }
                }
                // completeness
                assert forall|y: usize, k: nat| #[trigger] reached_by(m, ei, open, y as int, k) implies vis.contains(y)
                    || exists|j: nat| j < k && q2.contains(#[trigger] m.up(y as int, j) as usize) by {
                    if vis0.contains(y) {
                        let i = choose|i: int| 0 <= i < vis0.len() && vis0[i] == y;
                        assert(vis[i] == y);
                    } else {
                        let j = choose|j: nat| j < k && q0.contains(#[trigger] m.up(y as int, j) as usize);
                        let w = m.up(y as int, j);
                        let i = choose|i: int| 0 <= i < q0.len() && q0[i] == w as usize;
                        if i == 0 {
                            if j == 0 {
                                assert(vis[vis0.len() as int] == y);
                            } else {
                                lemma_reach_step_down(m, d, ei, open, y as int, k, j);
                                lemma_reach_inner_live(m, d, ei, open, y as int, k, j);
                                assert(w == xi);
                                let c = m.up(y as int, (j - 1) as nat);
                                let t = choose|t: int| 0 <= t < cs.len() && cs[t] == c as usize;
                                assert(q2[q1.len() + t] == c as usize);
                                assert(q2.contains(m.up(y as int, (j - 1) as nat) as usize));
                            }
                        } else {
                            assert(q2[i - 1] == q0[i]);
                        }
                    }
                }
                // what was found
                assert forall|y: usize| #[trigger] handle_indices(found@).contains(y) <==> vis.contains(y)
                    && lookup_matches(lookup@, m.elems[y as int]) by {
                    assert(matched ==> handle_indices(found@) == f0.push(x@));
                    assert(!matched ==> handle_indices(found@) == f0);
                    if y == x@ {
                        assert(vis[vis0.len() as int] == y);
                        if matched {
                            assert(f0.push(x@)[f0.len() as int] == y);
                        }
                    } else {
                        if handle_indices(found@).contains(y) {
                            let i = choose|i: int| 0 <= i < handle_indices(found@).len() && handle_indices(found@)[i] == y;
                            if matched {
                                assert(i < f0.len());
                            }
                            assert(f0[i] == y);
                        }
                        if f0.contains(y) {
                            let i = choose|i: int| 0 <= i < f0.len() && f0[i] == y;
                            if matched {
                                assert(f0.push(x@)[i] == y);
                            }
                        }
                        if vis.contains(y) {
                            let i = choose|i: int| 0 <= i < vis.len() && vis[i] == y;
                            assert(vis0[i] == y);
                        }
                        if vis0.contains(y) {
                            let i = choose|i: int| 0 <= i < vis0.len() && vis0[i] == y;
                            assert(vis[i] == y);
                        }
                    }
                }
                // progress
                assert forall|i: int| 0 <= i < vis.len() implies vis[i] < m.elems.len() by {
                    assert(reached(m, ei, open, vis[i] as int));
                }
                assert(vis.no_duplicates()) by {
                    assert forall|a: int, b: int| 0 <= a < vis.len() && 0 <= b < vis.len() && a != b implies vis[a] != vis[b] by {
                        assert((vis + q2)[a] == vis[a] && (vis + q2)[b] == vis[b]);
                    }
                }
                lemma_distinct_below(vis, m.elems.len());
                // the order of what was found
                let fuel = (m.elems.len() - vis0.len()) as nat;
                let more = if open(xi) { cs } else { Seq::<usize>::empty() };
                assert(q2 =~= q0.drop_first() + more);
                let rest = bfs_visit(m, open, q2, (fuel - 1) as nat);
                assert(bfs_visit(m, open, q0, fuel) == seq![x@] + rest);
                assert((seq![x@] + rest).drop_first() =~= rest);
                assert((seq![x@] + rest)[0] == x@);
                let km = keep_matching(m, lookup@, rest);
                if matched {
                    assert(handle_indices(found@) + km =~= f0 + (seq![x@] + km));
                } else {
                    assert(handle_indices(found@) + km =~= f0 + km);
                }
            }
        }
        proof {
            assert(bfs_visit(m, open, handle_indices(q@), (m.elems.len() - vis.len()) as nat) =~= Seq::<usize>::empty());
            assert(handle_indices(found@) + Seq::<usize>::empty() =~= handle_indices(found@));
            assert forall|y: usize| #[trigger] handle_indices(found@).contains(y) <==> reached(m, ei, open, y as int)
                && lookup_matches(lookup@, m.elems[y as int]) by {
                if reached(m, ei, open, y as int) {
                    let k = choose|k: nat| reached_by(m, ei, open, y as int, k);
                    assert(reached_by(m, ei, open, y as int, k));
                }
                if vis.contains(y) {
                    let i = choose|i: int| 0 <= i < vis.len() && vis[i] == y;
                    assert(reached(m, ei, open, vis[i] as int));
                }
            }
            assert forall|x: usize, k: nat|
                #![trigger handle_indices(found@).contains(x), m.up(x as int, k)]
                m.is_live(x as int) && x as int != ei && k >= 1 && m.up(x as int, k) == ei
                    && (forall|j: nat| 1 <= j < k ==> #[trigger] m.up(x as int, j) != ei && !lookup_matches(
                    lookup@,
                    m.elems[m.up(x as int, j)],
                )) && lookup_matches(lookup@, m.elems[x as int]) implies handle_indices(found@).contains(x) by {
                lemma_descendents_reach(m, ei, lookup@, look_past_match, x as int, k);
            }
        }
        found
    }

    /// The handles of `v` other than those to slot `x`, in order.
    fn without_handle(v: &Vec<ElemHandle>, x: ElemHandle) -> (r: Vec<ElemHandle>)
        ensures
            handle_indices(r@) == without(handle_indices(v@), x@),
    {
        let mut r: Vec<ElemHandle> = Vec::new();
        let mut k: usize = 0;
        proof {
            assert(handle_indices(v@.take(0)) =~= Seq::<usize>::empty());
            assert(handle_indices(r@) =~= Seq::<usize>::empty());
        }
        while k < v.len()
            invariant
                k <= v@.len(),
                handle_indices(r@) == without(handle_indices(v@.take(k as int)), x@),
            decreases v@.len() - k,
        {
            let ghost r0 = handle_indices(r@);
            let h = v[k];
            proof {
                let t = handle_indices(v@.take(k + 1));
                assert(t.drop_last() =~= handle_indices(v@.take(k as int)));
                assert(t.last() == h@);
            }
            if h.0 != x.0 {
                r.push(h);
                proof {
                    assert(handle_indices(r@) =~= r0.push(h@));
                }
            }
            k = k + 1;
        }
        proof {
            assert(v@.take(k as int) =~= v@);
        }
        r
    }

    /// Removes element `e` from the tree along with all of its descendants.
    /// Their slots keep their index and hold `Vacant`; they are appended to
    /// the freed slots in breadth-first order, `e` first.
    pub fn remove(&mut self, e: ElemHandle) -> (r: Result<(), String>)
        requires
            old(self).wf(),
            old(self)@.is_live(e@ as int),
            e@ != 0,
        ensures
            final(self).wf(),
            r is Ok,
            final(self)@.elems.len() == old(self)@.elems.len(),
            final(self)@.vacant.len() >= old(self)@.vacant.len(),
            final(self)@.vacant.take(old(self)@.vacant.len() as int) == old(self)@.vacant,
            final(self)@.vacant.skip(old(self)@.vacant.len() as int) == bfs_visit(
                old(self)@,
                descend_all(),
                seq![e@],
                old(self)@.elems.len(),
            ),
            forall|y: usize|
                #[trigger] final(self)@.vacant.skip(old(self)@.vacant.len() as int).contains(y) <==> (old(
                    self,
                )@.is_live(y as int) && old(self)@.in_subtree(y as int, e@ as int)),
            forall|i: int|
                0 <= i < old(self)@.elems.len() ==> #[trigger] final(self)@.elems[i] == removed_elem(
                    old(self)@,
                    e@ as int,
                    i,
                ),
    {
        let ghost m = self@;
        let ghost d = choose|d: Seq<nat>| m.depths_ok(d);
        let ghost ei = e@ as int;
        let p = match self.elems[e.0].parent {
            Some(p) => p,
            None => ElemHandle::root(),
        };
        let ghost pi = p@ as int;
        proof {
            assert(pi == m.parent_index(ei));
            assert(m.parent_ok(ei));
            assert(!m.in_subtree(pi, ei)) by {
                if m.in_subtree(pi, ei) {
                    let k = choose|k: nat| #[trigger] m.up(pi, k) == ei;
                    lemma_parent_outside(m, d, ei, k);
                }
            }
        }
        let kept = Self::without_handle(&self.elems[p.0].children, e);
        self.elems[p.0].children = kept;
        let ghost m1 = ManagerModel {
            elems: m.elems.update(pi, m.elems[pi].with_children(without(m.elems[pi].children, e@))),
            vacant: m.vacant,
        };
        proof {
            assert(self@.elems =~= m1.elems);
        }
        let mut q: VecDeque<ElemHandle> = VecDeque::new();
        q.push_back(e);
        let ghost mut rem: Seq<usize> = Seq::empty();
        proof {
            assert(handle_indices(q@) =~= seq![e@]);
            assert(rem + handle_indices(q@) =~= seq![e@]);
            assert forall|y: usize, k: nat| m.is_live(y as int) && #[trigger] m.up(y as int, k) == ei implies rem.contains(y)
                || exists|j: nat| j <= k && handle_indices(q@).contains(#[trigger] m.up(y as int, j) as usize) by {
                assert(handle_indices(q@)[0] == e@);
            }
            assert(m.in_subtree(ei, ei)) by {
                assert(m.up(ei, 0) == ei);
            }
            assert(Seq::<usize>::empty() + bfs_visit(m, descend_all(), seq![e@], m.elems.len()) =~= bfs_visit(
                m,
                descend_all(),
                seq![e@],
                m.elems.len(),
            ));
        }
        while q.len() > 0
            invariant
                m.wf(),
                m.depths_ok(d),
                ei == e@ as int,
                m.is_live(ei),
                ei != 0,
                pi == m.parent_index(ei),
                !m.in_subtree(pi, ei),
                m1.elems == m.elems.update(pi, m.elems[pi].with_children(without(m.elems[pi].children, e@))),
                self@.elems.len() == m.elems.len(),
                self@.vacant == m.vacant + rem,
                forall|i: int|
                    0 <= i < m.elems.len() ==> #[trigger] self@.elems[i] == (if rem.contains(i as usize) {
                        m1.elems[i].with_value(ElemVal::Vacant)
                    } else {
                        m1.elems[i]
                    }),
                forall|i: int|
                    0 <= i < handle_indices(q@).len() ==> m.is_live(#[trigger] handle_indices(q@)[i] as int)
                        && m.in_subtree(handle_indices(q@)[i] as int, ei),
                forall|i: int| 0 <= i < rem.len() ==> m.is_live(#[trigger] rem[i] as int) && m.in_subtree(rem[i] as int, ei),
                (rem + handle_indices(q@)).no_duplicates(),
                rem.len() <= m.elems.len(),
                rem + bfs_visit(m, descend_all(), handle_indices(q@), (m.elems.len() - rem.len()) as nat) == bfs_visit(
                    m,
                    descend_all(),
                    seq![e@],
                    m.elems.len(),
                ),
                forall|i: int|
                    0 <= i < (rem + handle_indices(q@)).len() ==> #[trigger] (rem + handle_indices(q@))[i] as int == ei
                        || rem.contains(m.parent_index((rem + handle_indices(q@))[i] as int) as usize),
                forall|y: usize, k: nat|
                    m.is_live(y as int) && #[trigger] m.up(y as int, k) == ei ==> rem.contains(y) || exists|j: nat|
                        j <= k && handle_indices(q@).contains(#[trigger] m.up(y as int, j) as usize),
            decreases m.elems.len() - rem.len(),
        {
            let ghost q0 = handle_indices(q@);
            let ghost rem0 = rem;
            let ghost e0 = self@.elems;
            let x = q.pop_front().unwrap();
            let ghost xi = x@ as int;
            proof {
                assert(q0[0] == x@);
                assert(handle_indices(q@) =~= q0.drop_first());
                assert(m.is_live(xi) && m.in_subtree(xi, ei));
                assert(!rem0.contains(x@)) by {
                    if rem0.contains(x@) {
                        let i = choose|i: int| 0 <= i < rem0.len() && rem0[i] == x@;
                        assert((rem0 + q0)[i] == (rem0 + q0)[rem0.len() as int]);
                    }
                }
                assert(xi != pi);
                assert(x@ as int as usize == x@);
                assert(self@.elems[xi] == m1.elems[xi]);
                assert(m1.elems[xi] == m.elems[xi]);
                assert(self.elems@[xi]@ == m.elems[xi]);
            }
            let ghost q1 = handle_indices(q@);
            self.push_children(x, &mut q);
            let ghost before = self.elems@;
            self.vacant.push(x.0);
            self.elems[x.0].value = ElemVal::Vacant;
            proof {
                let cs = m.elems[xi].children;
                let q2 = handle_indices(q@);
                assert(q2 == q1 + cs);
                rem = rem0.push(x@);
                assert(self@.vacant =~= m.vacant + rem);
                assert(self.elems@ == before.update(xi, self.elems@[xi]));
                assert forall|i: int| 0 <= i < m.elems.len() implies #[trigger] self@.elems[i] == (if rem.contains(i as usize) {
                    m1.elems[i].with_value(ElemVal::Vacant)
                } else {
                    m1.elems[i]
                }) by {
                    if i == xi {
                        assert(rem[rem0.len() as int] == x@);
                        assert(self@.elems[i] == m.elems[xi].with_value(ElemVal::Vacant));
                    } else {
                        assert(self@.elems[i] == before[i]@);
                        assert(before[i]@ == e0[i]);
                        if rem.contains(i as usize) {
                            let t = choose|t: int| 0 <= t < rem.len() && rem[t] == i as usize;
                            assert(rem0[t] == i as usize);
                        }
                        if rem0.contains(i as usize) {
                            let t = choose|t: int| 0 <= t < rem0.len() && rem0[t] == i as usize;
                            assert(rem[t] == i as usize);
                        }
                    }
                }
                assert(m.children_ok(xi));
                assert forall|i: int| 0 <= i < q2.len() implies m.is_live(#[trigger] q2[i] as int) && m.in_subtree(q2[i] as int, ei) by {
                    if i < q1.len() {
                        assert(q2[i] == q0[i + 1]);
                    } else {
                        let t = i - q1.len();
                        assert(q2[i] == cs[t]);
                        lemma_child_live(m, xi, t);
                        let k = choose|k: nat| #[trigger] m.up(xi, k) == ei;
                        lemma_subtree_of_parent(m, ei, cs[t] as int, k);
                    }
                }
                assert forall|i: int| 0 <= i < rem.len() implies m.is_live(#[trigger] rem[i] as int) && m.in_subtree(rem[i] as int, ei) by {
                    if i < rem0.len() {
                        assert(rem[i] == rem0[i]);
                    }
                }
                assert(rem + q1 =~= rem0 + q0);
                assert forall|i: int| 0 <= i < (rem + q2).len() implies #[trigger] (rem + q2)[i] as int == ei
                    || rem.contains(m.parent_index((rem + q2)[i] as int) as usize) by {
                    if i < (rem + q1).len() {
                        assert((rem + q2)[i] == (rem0 + q0)[i]);
                        let pj = m.parent_index((rem0 + q0)[i] as int);
                        if rem0.contains(pj as usize) {
                            let j = choose|j: int| 0 <= j < rem0.len() && rem0[j] == pj as usize;
                            assert(rem[j] == pj as usize);
                        }
                    } else {
                        let t = i - (rem + q1).len();
                        assert((rem + q2)[i] == cs[t]);
                        lemma_child_live(m, xi, t);
                        assert(rem[rem0.len() as int] == x@);
                        assert(x@ as int as usize == x@);
                    }
                }
                assert forall|a: int, b: int| 0 <= a < (rem + q2).len() && 0 <= b < (rem + q2).len() && a != b implies
                    #[trigger] (rem + q2)[a] != #[trigger] (rem + q2)[b] by {
                    let w = rem + q2;
                    let old_len = (rem + q1).len();
                    if a < old_len && b < old_len {
                        assert(w[a] == (rem0 + q0)[a] && w[b] == (rem0 + q0)[b]);
                    } else if a >= old_len && b >= old_len {
                        assert(w[a] == cs[a - old_len] && w[b] == cs[b - old_len]);
                    } else {
                        let (o, n) = if a < old_len { (a, b) } else { (b, a) };
                        let t = n - old_len;
                        assert(w[n] == cs[t]);
                        lemma_child_live(m, xi, t);
                        assert(w[o] == (rem0 + q0)[o]);
                        if w[o] == w[n] {
                            assert(m.parent_index((rem0 + q0)[o] as int) == xi);
                            if (rem0 + q0)[o] as int == ei {
                                assert(m.in_subtree(pi, ei));
                            }
                        }
                    }
                }
                assert forall|y: usize, k: nat| m.is_live(y as int) && #[trigger] m.up(y as int, k) == ei implies rem.contains(y)
                    || exists|j: nat| j <= k && q2.contains(#[trigger] m.up(y as int, j) as usize) by {
                    if rem0.contains(y) {
                        let i = choose|i: int| 0 <= i < rem0.len() && rem0[i] == y;
                        assert(rem[i] == y);
                    } else {
                        let j = choose|j: nat| j <= k && q0.contains(#[trigger] m.up(y as int, j) as usize);
                        let w = m.up(y as int, j);
                        let i = choose|i: int| 0 <= i < q0.len() && q0[i] == w as usize;
                        if i == 0 {
                            if j == 0 {
                                assert(rem[rem0.len() as int] == y);
                            } else {
                                lemma_subtree_step(m, d, ei, y as int, k, j);
                                assert(w == xi);
                                let c = m.up(y as int, (j - 1) as nat);
                                let t = choose|t: int| 0 <= t < cs.len() && cs[t] == c as usize;
                                assert(q2[q1.len() + t] == c as usize);
                                assert(q2.contains(m.up(y as int, (j - 1) as nat) as usize));
                            }
                        } else {
                            assert(q2[i - 1] == q0[i]);
                        }
                    }
                }
                assert forall|i: int| 0 <= i < rem.len() implies rem[i] < m.elems.len() by {
                    assert(m.is_live(rem[i] as int));
                }
                assert(rem.no_duplicates()) by {
                    assert forall|a: int, b: int| 0 <= a < rem.len() && 0 <= b < rem.len() && a != b implies rem[a] != rem[b] by {
                        assert((rem + q2)[a] == rem[a] && (rem + q2)[b] == rem[b]);
                    }
                }
                lemma_distinct_below(rem, m.elems.len());
                let fuel = (m.elems.len() - rem0.len()) as nat;
                let rest = bfs_visit(m, descend_all(), q2, (fuel - 1) as nat);
                assert(q2 =~= q0.drop_first() + cs);
                assert(bfs_visit(m, descend_all(), q0, fuel) == seq![x@] + rest);
                assert(rem + rest =~= rem0 + (seq![x@] + rest));
            }
        }
        proof {
            assert(rem.no_duplicates()) by {
                assert(rem + handle_indices(q@) =~= rem);
            }
            assert forall|y: usize| #[trigger] rem.contains(y) <==> (m.is_live(y as int) && m.in_subtree(y as int, ei)) by {
                if m.is_live(y as int) && m.in_subtree(y as int, ei) {
                    let k = choose|k: nat| #[trigger] m.up(y as int, k) == ei;
                    assert(m.up(y as int, k) == ei);
                }
                if rem.contains(y) {
                    let i = choose|i: int| 0 <= i < rem.len() && rem[i] == y;
                    assert(m.is_live(rem[i] as int));
                }
            }
            assert forall|i: int| 0 <= i < m.elems.len() implies #[trigger] self@.elems[i] == removed_elem(m, ei, i) by {
                if rem.contains(i as usize) {
                    assert(i != pi);
                } else {
                    if i == pi {
                    }
                }
            }
            lemma_remove_wf(m, ei, rem, self@);
            assert(self@.vacant.take(m.vacant.len() as int) =~= m.vacant);
            assert(self@.vacant.skip(m.vacant.len() as int) =~= rem);
            assert(bfs_visit(m, descend_all(), handle_indices(q@), (m.elems.len() - rem.len()) as nat) =~= Seq::<usize>::empty());
            assert(rem + Seq::<usize>::empty() =~= rem);
        }
        Ok(())
    }
}

impl ElemHandle {
    /// The handle as its debug form shows it: the slot index in decimal.
    pub fn debug_text(&self) -> (r: String)
        ensures
            r@ == decimal(self@ as nat),
    {
        decimal_string(self.0)
    }

    /// Creates a child of this element; the same as `Manager::create` with
    /// this element as the parent.
    pub fn new_child(self, mgr: &mut Manager, name: &str, value: ElemVal) -> (r: Result<ElemHandle, String>)
        requires
            old(mgr).wf(),
            old(mgr)@.is_live(self@ as int),
        ensures
            final(mgr).wf(),
            r is Ok <==> (name@.len() > 0 && name@ != "Meta"@ && name@ != "Value"@),
            valid_elem_name(name@) ==> (r matches Ok(h) && h@ == old(mgr)@.next_slot()
                && final(mgr)@ == old(mgr)@.after_create(name@, value, self@ as int)),
            !valid_elem_name(name@) ==> (r matches Err(msg) && msg@ == invalid_name_message(name@)
                && final(mgr)@ == old(mgr)@),
    {
        mgr.create(name, value, Some(self))
    }
}

} // verus!
