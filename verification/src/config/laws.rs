//! Properties of the tree that relate several operations.
use vstd::prelude::*;
use crate::config::value::ElemVal;
use crate::config::names::valid_elem_name;
use crate::config::lookup::{LookupModel, lookup_matches};
use crate::config::manager::search_open;
use crate::config::search::{reached, reached_by};
use crate::config::model::{
    ManagerModel, obtain_model, lemma_create_wf, lemma_below_set, lemma_top_steps, lemma_child_named_live,
    lemma_ancestor_none_after, same_links, lemma_same_links_wf,
};

verus! {

/// The elements of the tree, the hidden root not counted.
pub open spec fn element_set(m: ManagerModel) -> Set<usize> {
    Set::new(|i: usize| i != 0 && m.is_live(i as int))
}

/// The elements of the subtree of `e`, `e` included.
pub open spec fn subtree_set(m: ManagerModel, e: int) -> Set<usize> {
    Set::new(|i: usize| m.is_live(i as int) && m.in_subtree(i as int, e))
}

/// `len` counts the elements of the tree: the live slots other than the
/// root.
pub proof fn lemma_len_counts_elements(m: ManagerModel)
    requires
        m.wf(),
    ensures
        element_set(m).finite(),
        element_set(m).len() == m.live_count(),
{
    let n = m.elems.len();
    lemma_below_set(n);
    let below = Set::new(|x: usize| x < n);
    let r = below.remove(0);
    let v = m.vacant.to_set();
    m.vacant.unique_seq_to_set();
    assert forall|x: usize| #[trigger] v.contains(x) implies r.contains(x) by {
        let k = choose|k: int| 0 <= k < m.vacant.len() && m.vacant[k] == x;
        assert(0 < m.vacant[k] < n);
    }
    assert(r.intersect(v) =~= v);
    assert(element_set(m) =~= r.difference(v));
    vstd::set_lib::lemma_set_difference_len(r, v);
}

/// Creating an element adds one element to the count.
pub proof fn lemma_create_len(m: ManagerModel, name: Seq<char>, value: ElemVal, p: int)
    requires
        m.wf(),
        m.is_live(p),
    ensures
        m.after_create(name, value, p).live_count() == m.live_count() + 1,
{
}

/// Removing element `e` takes exactly the elements of its subtree out of
/// the count.
pub proof fn lemma_remove_len(m: ManagerModel, e: int, n: ManagerModel)
    requires
        m.wf(),
        n.wf(),
        n.elems.len() == m.elems.len(),
        m.vacant.len() <= n.vacant.len(),
        n.vacant.take(m.vacant.len() as int) == m.vacant,
        forall|y: usize|
            #[trigger] n.vacant.skip(m.vacant.len() as int).contains(y) <==> (m.is_live(y as int) && m.in_subtree(
                y as int,
                e,
            )),
    ensures
        subtree_set(m, e).finite(),
        n.live_count() == m.live_count() - subtree_set(m, e).len(),
{
    let s = n.vacant.skip(m.vacant.len() as int);
    lemma_vacant_prefix_len(m, n);
    assert(s.no_duplicates()) by {
        assert forall|a: int, b: int| 0 <= a < s.len() && 0 <= b < s.len() && a != b implies s[a] != s[b] by {
            assert(s[a] == n.vacant[a + m.vacant.len()] && s[b] == n.vacant[b + m.vacant.len()]);
        }
    }
    s.unique_seq_to_set();
    assert(s.to_set() =~= subtree_set(m, e));
}

proof fn lemma_vacant_prefix_len(m: ManagerModel, n: ManagerModel)
    requires
        m.vacant.len() <= n.vacant.len(),
    ensures
        n.vacant.len() == m.vacant.len() + n.vacant.skip(m.vacant.len() as int).len(),
{
    assert(n.vacant.take(m.vacant.len() as int).len() == m.vacant.len());
}

/// Metadata written under `name` is read back as `value`; other names keep
/// their values.
pub proof fn lemma_meta_read_after_write(m: ManagerModel, e: int, name: Seq<char>, value: Seq<char>, other: Seq<char>)
    requires
        0 <= e < m.elems.len(),
    ensures
        ({
            let n = m.with_elem(e, m.elems[e].with_meta(m.elems[e].meta.insert(name, value)));
            &&& n.elems[e].meta.contains_key(name)
            &&& n.elems[e].meta[name] == value
            &&& other != name ==> (n.elems[e].meta.contains_key(other) == m.elems[e].meta.contains_key(other)
                && n.elems[e].meta[other] == m.elems[e].meta[other])
        }),
{
}

/// A live element's ancestors are live.
pub proof fn lemma_ancestor_live(m: ManagerModel, e: int, k: nat)
    requires
        m.wf(),
        m.is_live(e),
    ensures
        m.ancestor_at(e, k) matches Some(a) ==> m.is_live(a),
    decreases k,
{
    if k > 0 {
        lemma_ancestor_live(m, e, (k - 1) as nat);
        if let Some(a) = m.ancestor_at(e, (k - 1) as nat) {
            if a != 0 {
                assert(m.parent_ok(a));
            }
        }
    }
}

/// One step up, then `k` more, is `k + 1` steps up.
proof fn lemma_ancestor_shift(m: ManagerModel, e: int, p: int, k: nat)
    requires
        m.elems[e].parent == Some(p as usize),
        0 <= p,
        p <= usize::MAX,
    ensures
        m.ancestor_at(e, k + 1) == m.ancestor_at(p, k),
    decreases k,
{
    if k > 0 {
        lemma_ancestor_shift(m, e, p, (k - 1) as nat);
    } else {
        assert(m.ancestor_at(e, 1) == match m.ancestor_at(e, 0) {
            Some(a) => match m.elems[a].parent {
                Some(q) => Some(q as int),
                None => None,
            },
            None => None,
        });
    }
}

/// Every live element has a top-level ancestor.
proof fn lemma_top_exists(m: ManagerModel, d: Seq<nat>, e: int)
    requires
        m.wf(),
        m.depths_ok(d),
        m.is_live(e),
    ensures
        exists|k: nat| m.is_top_at(e, k),
    decreases d[e],
{
    match m.elems[e].parent {
        None => {
            assert(m.is_top_at(e, 0));
        },
        Some(p) => {
            assert(e != 0);
            assert(m.parent_ok(e));
            lemma_top_exists(m, d, p as int);
            let k = choose|k: nat| m.is_top_at(p as int, k);
            lemma_ancestor_shift(m, e, p as int, k);
            assert(m.is_top_at(e, k + 1));
        },
    }
}

/// Creating an element leaves the ancestors of existing elements as they
/// were.
proof fn lemma_create_keeps_ancestors(m: ManagerModel, name: Seq<char>, value: ElemVal, p: int, e: int, k: nat)
    requires
        m.wf(),
        m.is_live(p),
        m.is_live(e),
    ensures
        m.after_create(name, value, p).ancestor_at(e, k) == m.ancestor_at(e, k),
    decreases k,
{
    let n = m.after_create(name, value, p);
    if k > 0 {
        lemma_create_keeps_ancestors(m, name, value, p, e, (k - 1) as nat);
        lemma_ancestor_live(m, e, (k - 1) as nat);
        if let Some(a) = m.ancestor_at(e, (k - 1) as nat) {
            assert(m.is_live(a));
            assert(a != m.next_slot()) by {
                if m.vacant.len() > 0 {
                    assert(m.vacant.contains(m.vacant[m.vacant.len() - 1]));
                }
            }
            assert(n.elems[a].parent == m.elems[a].parent);
        }
    }
}

/// The hierarchy of a newly created element is that of its parent followed
/// by its own name (just its name at top level).
pub proof fn lemma_child_hierarchy(m: ManagerModel, name: Seq<char>, value: ElemVal, p: int)
    requires
        m.wf(),
        m.is_live(p),
    ensures
        ({
            let n = m.after_create(name, value, p);
            let c = m.next_slot();
            n.hierarchy_names(c) == if p == 0 {
                seq![name]
            } else {
                m.hierarchy_names(p).push(name)
            }
        }),
{
    let n = m.after_create(name, value, p);
    let c = m.next_slot();
    if m.vacant.len() > 0 {
        assert(0 < m.vacant[m.vacant.len() - 1] < m.elems.len());
    }
    assert(n.elems[c].name == name);
    if p == 0 {
        assert(n.elems[c].parent is None);
        assert(n.is_top_at(c, 0));
        lemma_top_steps(n, c, 0);
        assert(n.hierarchy_names(c) =~= seq![name]);
    } else {
        let d = choose|d: Seq<nat>| m.depths_ok(d);
        lemma_top_exists(m, d, p);
        let t = choose|k: nat| m.is_top_at(p, k);
        lemma_top_steps(m, p, t);
        assert(n.elems[c].parent == Some(p as usize));
        lemma_ancestor_shift(n, c, p, t);
        lemma_create_keeps_ancestors(m, name, value, p, p, t);
        lemma_ancestor_live(m, p, t);
        let top = m.ancestor_at(p, t).unwrap();
        assert(top != c) by {
            if m.vacant.len() > 0 {
                assert(m.vacant.contains(m.vacant[m.vacant.len() - 1]));
            }
        }
        assert(n.is_top_at(c, t + 1));
        lemma_top_steps(n, c, t + 1);
        let hn = n.hierarchy_names(c);
        let hm = m.hierarchy_names(p).push(name);
        assert forall|i: int| 0 <= i < hn.len() implies hn[i] == hm[i] by {
            if i < t + 1 {
                let k = (t - i) as nat;
                if m.ancestor_at(p, k) is None {
                    lemma_ancestor_none_after(m, p, k, (t - k) as nat);
                }
                lemma_ancestor_shift(n, c, p, k);
                lemma_create_keeps_ancestors(m, name, value, p, p, k);
                lemma_ancestor_live(m, p, k);
                let a = m.ancestor_at(p, k).unwrap();
                assert(a != c) by {
                    if m.vacant.len() > 0 {
                        assert(m.vacant.contains(m.vacant[m.vacant.len() - 1]));
                    }
                }
                assert(n.elems[a].name == m.elems[a].name);
            }
        }
        assert(hn =~= hm);
    }
}

/// `n` keeps what `m` has: its elements stay live under the same names,
/// and child lists only grow at the end.
pub open spec fn grows(m: ManagerModel, n: ManagerModel) -> bool {
    forall|x: int|
        #[trigger] m.is_live(x) ==> {
            &&& n.is_live(x)
            &&& n.elems[x].name == m.elems[x].name
            &&& m.elems[x].children.len() <= n.elems[x].children.len()
            &&& forall|i: int|
                0 <= i < m.elems[x].children.len() ==> n.elems[x].children[i] == m.elems[x].children[i]
        }
}

proof fn lemma_grows_trans(m: ManagerModel, n: ManagerModel, o: ManagerModel)
    requires
        grows(m, n),
        grows(n, o),
    ensures
        grows(m, o),
{
    assert forall|x: int| #[trigger] m.is_live(x) implies {
        &&& o.is_live(x)
        &&& o.elems[x].name == m.elems[x].name
        &&& m.elems[x].children.len() <= o.elems[x].children.len()
        &&& forall|i: int| 0 <= i < m.elems[x].children.len() ==> o.elems[x].children[i] == m.elems[x].children[i]
    } by {
        assert(n.is_live(x));
    }
}

proof fn lemma_create_grows(m: ManagerModel, name: Seq<char>, value: ElemVal, p: int)
    requires
        m.wf(),
        m.is_live(p),
    ensures
        grows(m, m.after_create(name, value, p)),
{
    let n = m.after_create(name, value, p);
    let c = m.next_slot();
    if m.vacant.len() > 0 {
        assert(m.vacant.contains(m.vacant[m.vacant.len() - 1]));
    }
    assert forall|x: int| #[trigger] m.is_live(x) implies {
        &&& n.is_live(x)
        &&& n.elems[x].name == m.elems[x].name
        &&& m.elems[x].children.len() <= n.elems[x].children.len()
        &&& forall|i: int| 0 <= i < m.elems[x].children.len() ==> n.elems[x].children[i] == m.elems[x].children[i]
    } by {
        assert(x != c);
        if m.vacant.len() > 0 && n.vacant.contains(x as usize) {
            let k = choose|k: int| 0 <= k < n.vacant.len() && n.vacant[k] == x as usize;
            assert(m.vacant[k] == x as usize);
        }
    }
}

/// A name found among `cs` is found at the same place in a longer list
/// whose first entries are `cs`, when those keep their names.
proof fn lemma_first_named_extend(m: ManagerModel, n: ManagerModel, cs: Seq<usize>, ds: Seq<usize>, nm: Seq<char>)
    requires
        cs.len() <= ds.len(),
        forall|i: int| 0 <= i < cs.len() ==> ds[i] == cs[i],
        forall|i: int| 0 <= i < cs.len() ==> n.elems[(#[trigger] cs[i]) as int].name == m.elems[cs[i] as int].name,
        m.first_named(cs, nm) is Some,
    ensures
        n.first_named(ds, nm) == m.first_named(cs, nm),
    decreases cs.len(),
{
    assert(ds[0] == cs[0]);
    assert(n.elems[cs[0] as int].name == m.elems[cs[0] as int].name);
    if m.elems[cs[0] as int].name != nm {
        assert forall|i: int| 0 <= i < cs.drop_first().len() implies n.elems[(#[trigger] cs.drop_first()[i]) as int].name
            == m.elems[cs.drop_first()[i] as int].name by {
            assert(cs.drop_first()[i] == cs[i + 1]);
        }
        lemma_first_named_extend(m, n, cs.drop_first(), ds.drop_first(), nm);
    }
}

/// Appending an element named `nm` to a list where no element is so named
/// makes it the first so named.
proof fn lemma_first_named_push(m: ManagerModel, cs: Seq<usize>, x: usize, nm: Seq<char>)
    requires
        m.first_named(cs, nm) is None,
        m.elems[x as int].name == nm,
    ensures
        m.first_named(cs.push(x), nm) == Some(x),
    decreases cs.len(),
{
    if cs.len() == 0 {
        assert(cs.push(x)[0] == x);
    } else {
        assert(cs.push(x)[0] == cs[0]);
        assert(cs.push(x).drop_first() =~= cs.drop_first().push(x));
        lemma_first_named_push(m, cs.drop_first(), x, nm);
    }
}

/// Names equal on `cs` give the same first match.
proof fn lemma_first_named_same(m: ManagerModel, n: ManagerModel, cs: Seq<usize>, nm: Seq<char>)
    requires
        forall|i: int| 0 <= i < cs.len() ==> n.elems[(#[trigger] cs[i]) as int].name == m.elems[cs[i] as int].name,
    ensures
        n.first_named(cs, nm) == m.first_named(cs, nm),
    decreases cs.len(),
{
    if cs.len() > 0 {
        assert(n.elems[cs[0] as int].name == m.elems[cs[0] as int].name);
        assert forall|i: int| 0 <= i < cs.drop_first().len() implies n.elems[(#[trigger] cs.drop_first()[i]) as int].name
            == m.elems[cs.drop_first()[i] as int].name by {
            assert(cs.drop_first()[i] == cs[i + 1]);
        }
        lemma_first_named_same(m, n, cs.drop_first(), nm);
    }
}

/// `obtain` from a live element `e` keeps what the tree has, and the slot
/// it returns is the one a lookup along the same names finds afterwards.
pub proof fn lemma_obtain_from(m: ManagerModel, e: int, names: Seq<Seq<char>>)
    requires
        m.wf(),
        m.is_live(e),
        m.elems.len() + names.len() <= usize::MAX,
    ensures
        ({
            let (n, r) = obtain_model(m, e, names);
            &&& n.wf()
            &&& grows(m, n)
            &&& n.elems.len() <= m.elems.len() + names.len()
            &&& r matches Ok(h) ==> n.path_from(e, names) == Some(h) && n.is_live(h as int)
        }),
    decreases names.len(),
{
    let (n, r) = obtain_model(m, e, names);
    if names.len() == 0 {
        assert(n == m);
        assert(e as usize as int == e);
    } else {
        let nm = names[0];
        let rest = names.drop_first();
        lemma_child_named_live(m, e, nm);
        match m.child_named(e, nm) {
            Some(c) => {
                lemma_obtain_from(m, c as int, rest);
                assert(m.is_live(e));
                let cs = m.elems[e].children;
                assert forall|i: int| 0 <= i < cs.len() implies n.elems[(#[trigger] cs[i]) as int].name
                    == m.elems[cs[i] as int].name by {
                    crate::config::model::lemma_child_live(m, e, i);
                }
                lemma_first_named_extend(m, n, cs, n.elems[e].children, nm);
            },
            None => {
                if valid_elem_name(nm) {
                    let m1 = m.after_create(nm, ElemVal::Null, e);
                    let c = m.next_slot();
                    lemma_create_wf(m, nm, ElemVal::Null, e);
                    lemma_create_grows(m, nm, ElemVal::Null, e);
                    lemma_obtain_from(m1, c, rest);
                    lemma_grows_trans(m, m1, n);
                    let cs = m.elems[e].children;
                    let cs1 = m1.elems[e].children;
                    assert(cs1 == cs.push(c as usize));
                    assert forall|i: int| 0 <= i < cs.len() implies m1.elems[(#[trigger] cs[i]) as int].name
                        == m.elems[cs[i] as int].name by {
                        crate::config::model::lemma_child_live(m, e, i);
                    }
                    lemma_first_named_same(m, m1, cs, nm);
                    if m.vacant.len() > 0 {
                        assert(0 < m.vacant[m.vacant.len() - 1] < m.elems.len());
                    }
                    assert(m1.elems[c].name == nm);
                    assert(c as usize as int == c);
                    lemma_first_named_push(m1, cs, c as usize, nm);
                    assert(m1.is_live(e));
                    assert forall|i: int| 0 <= i < cs1.len() implies n.elems[(#[trigger] cs1[i]) as int].name
                        == m1.elems[cs1[i] as int].name by {
                        crate::config::model::lemma_child_live(m1, e, i);
                    }
                    lemma_first_named_extend(m1, n, cs1, n.elems[e].children, nm);
                } else {
                    assert(n == m);
                    assert forall|x: int| #[trigger] m.is_live(x) implies {
                        &&& n.is_live(x)
                        &&& n.elems[x].name == m.elems[x].name
                        &&& m.elems[x].children.len() <= n.elems[x].children.len()
                        &&& forall|i: int| 0 <= i < m.elems[x].children.len() ==> n.elems[x].children[i] == m.elems[x].children[i]
                    } by {}
                }
            },
        }
    }
}

/// Looking up the names that `obtain` was given finds the element it
/// returned.
pub proof fn lemma_lookup_after_obtain(m: ManagerModel, names: Seq<Seq<char>>)
    requires
        m.wf(),
        m.elems.len() + names.len() <= usize::MAX,
    ensures
        obtain_model(m, 0, names).1 matches Ok(h) ==> obtain_model(m, 0, names).0.path_from(0, names) == Some(h),
{
    assert(m.elems[0].parent is None);
    assert(!m.vacant.contains(0)) by {
        if m.vacant.contains(0) {
            let k = choose|k: int| 0 <= k < m.vacant.len() && m.vacant[k] == 0;
            assert(0 < m.vacant[k]);
        }
    }
    lemma_obtain_from(m, 0, names);
}

/// `obtain` along names that already lead to an element changes nothing and
/// returns that element.
pub proof fn lemma_obtain_existing(m: ManagerModel, e: int, names: Seq<Seq<char>>)
    requires
        m.path_from(e, names) is Some,
    ensures
        obtain_model(m, e, names) == (m, Ok::<usize, Seq<char>>(m.path_from(e, names).unwrap())),
    decreases names.len(),
{
    if names.len() > 0 {
        let c = m.child_named(e, names[0]).unwrap();
        lemma_obtain_existing(m, c as int, names.drop_first());
    }
}

/// Writing a new value into a live element, as through `value_mut`, keeps
/// the tree's invariant.
pub proof fn lemma_value_change_wf(m: ManagerModel, e: int, v: ElemVal)
    requires
        m.wf(),
        m.is_live(e),
    ensures
        m.with_elem(e, m.elems[e].with_value(v)).wf(),
{
    let n = m.with_elem(e, m.elems[e].with_value(v));
    assert(same_links(m, n));
    lemma_same_links_wf(m, n);
}

/// Element `x` is the first of its siblings to carry its name, so that a
/// lookup by that name under its parent finds it.
pub open spec fn first_of_its_name(m: ManagerModel, x: int) -> bool {
    m.child_named(m.parent_index(x), m.elems[x].name) == Some(x as usize)
}

/// Following one more name is one more step to a child so named.
proof fn lemma_path_push(m: ManagerModel, e: int, names: Seq<Seq<char>>, nm: Seq<char>)
    requires
        0 <= e <= usize::MAX,
    ensures
        m.path_from(e, names.push(nm)) == match m.path_from(e, names) {
            Some(c) => m.child_named(c as int, nm),
            None => None,
        },
    decreases names.len(),
{
    let s = names.push(nm);
    if names.len() == 0 {
        assert(s.drop_first() =~= Seq::<Seq<char>>::empty());
        assert(s[0] == nm);
        assert(m.path_from(e, names) == Some(e as usize));
        assert(e as usize as int == e);
        if let Some(c) = m.child_named(e, nm) {
            assert(m.path_from(c as int, s.drop_first()) == Some(c));
        }
    } else {
        assert(s.drop_first() =~= names.drop_first().push(nm));
        assert(s[0] == names[0]);
        if let Some(c) = m.child_named(e, names[0]) {
            lemma_path_push(m, c as int, names.drop_first(), nm);
        }
    }
}

/// The first `j + 1` names of the hierarchy of `e` lead from the root to
/// its ancestor `n - j` steps up, `n` being the steps to the top.
proof fn lemma_hierarchy_prefix(m: ManagerModel, e: int, n: nat, j: nat)
    requires
        m.wf(),
        m.is_live(e),
        m.is_top_at(e, n),
        n == m.top_steps(e),
        j <= n,
        forall|k: nat| (#[trigger] m.ancestor_at(e, k)) is Some ==> first_of_its_name(m, m.ancestor_at(e, k).unwrap()),
    ensures
        m.ancestor_at(e, (n - j) as nat) is Some,
        m.path_from(0, m.hierarchy_names(e).take(j + 1 as int)) == Some(m.ancestor_at(e, (n - j) as nat).unwrap() as usize),
    decreases j,
{
    let hn = m.hierarchy_names(e);
    let k = (n - j) as nat;
    if m.ancestor_at(e, k) is None {
        lemma_ancestor_none_after(m, e, k, (n - k) as nat);
    }
    let a = m.ancestor_at(e, k).unwrap();
    lemma_ancestor_live(m, e, k);
    assert(first_of_its_name(m, a));
    assert(hn[j as int] == m.elems[a].name);
    if j == 0 {
        assert(m.parent_index(a) == 0);
        assert(hn.take(1) =~= Seq::<Seq<char>>::empty().push(m.elems[a].name));
        lemma_path_push(m, 0, Seq::empty(), m.elems[a].name);
    } else {
        lemma_hierarchy_prefix(m, e, n, (j - 1) as nat);
        let b = m.ancestor_at(e, k + 1).unwrap();
        lemma_ancestor_live(m, e, k + 1);
        assert(m.elems[a].parent == Some(b as usize));
        assert(m.parent_index(a) == b);
        assert(hn.take(j + 1 as int) =~= hn.take(j as int).push(hn[j as int]));
        lemma_path_push(m, 0, hn.take(j as int), hn[j as int]);
    }
}

/// Looking up the hierarchy of an element finds that element again, when
/// it and each of its ancestors is the first of its siblings with its name
/// (among equally named siblings a lookup takes the first).
pub proof fn lemma_lookup_hierarchy(m: ManagerModel, e: int)
    requires
        m.wf(),
        m.is_live(e),
        e != 0,
        forall|k: nat| (#[trigger] m.ancestor_at(e, k)) is Some ==> first_of_its_name(m, m.ancestor_at(e, k).unwrap()),
    ensures
        m.path_from(0, m.hierarchy_names(e)) == Some(e as usize),
{
    let d = choose|d: Seq<nat>| m.depths_ok(d);
    lemma_top_exists(m, d, e);
    let n = choose|k: nat| m.is_top_at(e, k);
    lemma_top_steps(m, e, n);
    lemma_hierarchy_prefix(m, e, n, n);
    let hn = m.hierarchy_names(e);
    assert(hn.take(n + 1 as int) =~= hn);
}

/// `hierarchy` one step at a time: a top-level element's hierarchy is its
/// own name (the hidden root's is its empty name), any other element's is
/// its parent's hierarchy followed by its own name.
pub proof fn lemma_hierarchy_step(m: ManagerModel, e: int)
    requires
        m.wf(),
        m.is_live(e),
    ensures
        m.hierarchy_names(e) == match m.elems[e].parent {
            None => seq![m.elems[e].name],
            Some(p) => m.hierarchy_names(p as int).push(m.elems[e].name),
        },
{
    match m.elems[e].parent {
        None => {
            assert(m.is_top_at(e, 0));
            lemma_top_steps(m, e, 0);
            assert(m.hierarchy_names(e) =~= seq![m.elems[e].name]);
        },
        Some(p) => {
            let pi = p as int;
            assert(e != 0);
            assert(m.parent_ok(e));
            let d = choose|d: Seq<nat>| m.depths_ok(d);
            lemma_top_exists(m, d, pi);
            let t = choose|k: nat| m.is_top_at(pi, k);
            lemma_top_steps(m, pi, t);
            lemma_ancestor_shift(m, e, pi, t);
            assert(m.is_top_at(e, t + 1));
            lemma_top_steps(m, e, t + 1);
            let he = m.hierarchy_names(e);
            let hp = m.hierarchy_names(pi).push(m.elems[e].name);
            assert forall|i: int| 0 <= i < he.len() implies he[i] == hp[i] by {
                if i < t + 1 {
                    lemma_ancestor_shift(m, e, pi, (t - i) as nat);
                }
            }
            assert(he =~= hp);
        },
    }
}

/// Child links lead down `s`: each slot of `s` lists the next among its
/// children.
pub open spec fn links_down(m: ManagerModel, s: Seq<usize>) -> bool
    decreases s.len(),
{
    s.len() <= 1 || (m.elems[s[0] as int].children.contains(s[1]) && links_down(m, s.drop_first()))
}

/// Slot `x` is reached from the hidden root by following child links at
/// least once.
pub open spec fn reachable_from_root(m: ManagerModel, x: int) -> bool {
    exists|s: Seq<usize>| s.len() >= 2 && s[0] == 0 && s.last() == x && #[trigger] links_down(m, s)
}

/// The elements reached from the hidden root through child links.
pub open spec fn reachable_set(m: ManagerModel) -> Set<usize> {
    Set::new(|x: usize| reachable_from_root(m, x as int))
}

/// The slots other than the root whose value is not `Vacant`.
pub open spec fn valued_set(m: ManagerModel) -> Set<usize> {
    Set::new(|x: usize| 0 < x < m.elems.len() && !(m.elems[x as int].value is Vacant))
}

/// Following child links from a live slot stays among live non-root slots.
proof fn lemma_links_live(m: ManagerModel, s: Seq<usize>)
    requires
        m.wf(),
        s.len() >= 1,
        m.is_live(s[0] as int),
        links_down(m, s),
    ensures
        m.is_live(s.last() as int),
        s.len() >= 2 ==> s.last() != 0,
    decreases s.len(),
{
    if s.len() >= 2 {
        assert(m.children_ok(s[0] as int));
        let k = choose|k: int| 0 <= k < m.elems[s[0] as int].children.len() && m.elems[s[0] as int].children[k] == s[1];
        assert(m.is_live(m.elems[s[0] as int].children[k] as int));
        let t = s.drop_first();
        assert(t[0] == s[1]);
        assert(t.last() == s.last());
        lemma_links_live(m, t);
    }
}

/// A link from the last slot of `s` extends it.
proof fn lemma_links_push(m: ManagerModel, s: Seq<usize>, y: usize)
    requires
        s.len() >= 1,
        links_down(m, s),
        m.elems[s.last() as int].children.contains(y),
    ensures
        links_down(m, s.push(y)),
    decreases s.len(),
{
    let t = s.push(y);
    assert(t[0] == s[0]);
    if s.len() == 1 {
        assert(s.last() == s[0]);
        assert(t[1] == y);
        assert(t.drop_first() =~= seq![y]);
        assert(links_down(m, seq![y]));
    } else {
        assert(t[1] == s[1]);
        assert(s.drop_first().last() == s.last());
        assert(t.drop_first() =~= s.drop_first().push(y));
        lemma_links_push(m, s.drop_first(), y);
    }
}

/// Every live element other than the root is reached from the root.
proof fn lemma_reachable_live(m: ManagerModel, d: Seq<nat>, x: int)
    requires
        m.wf(),
        m.depths_ok(d),
        m.is_live(x),
        x != 0,
    ensures
        reachable_from_root(m, x),
    decreases d[x],
{
    assert(m.parent_ok(x));
    let p = m.parent_index(x);
    if p == 0 {
        let s = seq![0usize, x as usize];
        assert(s.drop_first() =~= seq![x as usize]);
        assert(links_down(m, seq![x as usize]));
        assert(links_down(m, s));
        assert(s.last() == x);
    } else {
        lemma_reachable_live(m, d, p);
        let s = choose|s: Seq<usize>| s.len() >= 2 && s[0] == 0 && s.last() == p && #[trigger] links_down(m, s);
        lemma_links_push(m, s, x as usize);
        let t = s.push(x as usize);
        assert(t[0] == 0 && t.last() == x);
    }
}

/// `len` counts the elements reached from the hidden root through child
/// links: they are exactly the live slots other than the root.
pub proof fn lemma_len_counts_reachable(m: ManagerModel)
    requires
        m.wf(),
    ensures
        reachable_set(m) == element_set(m),
        reachable_set(m).finite(),
        reachable_set(m).len() == m.live_count(),
{
    let d = choose|d: Seq<nat>| m.depths_ok(d);
    assert(m.is_live(0)) by {
        if m.vacant.contains(0) {
            let k = choose|k: int| 0 <= k < m.vacant.len() && m.vacant[k] == 0;
            assert(0 < m.vacant[k]);
        }
    }
    assert forall|x: usize| #[trigger] reachable_set(m).contains(x) <==> element_set(m).contains(x) by {
        if reachable_from_root(m, x as int) {
            let s = choose|s: Seq<usize>| s.len() >= 2 && s[0] == 0 && s.last() == x as int && #[trigger] links_down(m, s);
            lemma_links_live(m, s);
        }
        if element_set(m).contains(x) {
            lemma_reachable_live(m, d, x as int);
        }
    }
    assert(reachable_set(m) =~= element_set(m));
    lemma_len_counts_elements(m);
}

/// `len` counts the slots other than the root that hold a value other than
/// `Vacant`, as long as no element holds `Vacant` (a value only removal is
/// meant to leave).
pub proof fn lemma_len_counts_valued(m: ManagerModel)
    requires
        m.wf(),
        forall|i: int| #[trigger] m.is_live(i) ==> !(m.elems[i].value is Vacant),
    ensures
        valued_set(m) == element_set(m),
        valued_set(m).finite(),
        valued_set(m).len() == m.live_count(),
{
    assert forall|x: usize| #[trigger] valued_set(m).contains(x) <==> element_set(m).contains(x) by {
        if m.vacant.contains(x) {
            let k = choose|k: int| 0 <= k < m.vacant.len() && m.vacant[k] == x;
            assert(m.elems[m.vacant[k] as int].value is Vacant);
        }
        if 0 < x < m.elems.len() && !m.vacant.contains(x) {
            assert(m.is_live(x as int));
        }
    }
    assert(valued_set(m) =~= element_set(m));
    lemma_len_counts_elements(m);
}

/// The search of `descendents` from `e` descends through every element that
/// fails the lookup, and through matches too when it looks past them: an
/// element `x` below `e` (`k` parent steps up from it, passing `e` nowhere
/// before) is reached whenever every element strictly between `x` and `e`
/// fails the lookup, and, when the search looks past matches, always.
pub proof fn lemma_descendents_reach(
    m: ManagerModel,
    e: int,
    l: Seq<LookupModel>,
    past: bool,
    x: int,
    k: nat,
)
    requires
        m.is_live(x),
        x != e,
        k >= 1,
        m.up(x, k) == e,
        forall|j: nat| 1 <= j < k ==> #[trigger] m.up(x, j) != e,
        past || forall|j: nat| 1 <= j < k ==> !lookup_matches(l, m.elems[#[trigger] m.up(x, j)]),
    ensures
        reached(m, e, search_open(m, l, past), x),
{
    let open = search_open(m, l, past);
    assert forall|j: nat| 1 <= j < k implies #[trigger] m.up(x, j) != e && open(m.up(x, j)) by {
        if !past {
            assert(!lookup_matches(l, m.elems[m.up(x, j)]));
        }
    }
    assert(reached_by(m, e, open, x, k));
}

/// Without looking past matches, the search of `descendents` reaches no
/// element below a match: every element strictly between a reached element
/// and `e` fails the lookup.
pub proof fn lemma_descendents_stop_at_match(m: ManagerModel, e: int, l: Seq<LookupModel>, x: int, k: nat)
    requires
        reached_by(m, e, search_open(m, l, false), x, k),
    ensures
        forall|j: nat| 1 <= j < k ==> !lookup_matches(l, m.elems[#[trigger] m.up(x, j)]),
{
    assert forall|j: nat| 1 <= j < k implies !lookup_matches(l, m.elems[#[trigger] m.up(x, j)]) by {
        assert(search_open(m, l, false)(m.up(x, j)));
    }
}

/// What `create` does to the values of slots: the one slot that becomes
/// live holds the given value, and the live slots stay live with their
/// values.
pub proof fn lemma_create_values(m: ManagerModel, name: Seq<char>, v: ElemVal, p: int)
    requires
        m.wf(),
        m.is_live(p),
        m.vacant.len() > 0 || m.elems.len() < usize::MAX,
    ensures
        ({
            let n = m.after_create(name, v, p);
            let c = m.next_slot();
            &&& n.wf()
            &&& n.is_live(c)
            &&& n.elems[c].value == v
            &&& forall|x: int| #[trigger] n.is_live(x) && !m.is_live(x) ==> x == c
            &&& forall|x: int| #[trigger] m.is_live(x) ==> n.is_live(x) && n.elems[x].value == m.elems[x].value
        }),
{
    let n = m.after_create(name, v, p);
    let c = m.next_slot();
    lemma_create_wf(m, name, v, p);
    if m.vacant.len() > 0 {
        assert(m.vacant.contains(m.vacant[m.vacant.len() - 1]));
        assert(0 < m.vacant[m.vacant.len() - 1] < m.elems.len());
    }
    assert forall|x: int| #[trigger] m.is_live(x) implies n.is_live(x) && n.elems[x].value == m.elems[x].value by {
        assert(x != c);
    }
}

/// Every element that `obtain` creates holds `Null`, and the elements there
/// were before keep their values: a slot live afterwards but not before
/// holds `Null`, and a slot live before is still live with the same value.
pub proof fn lemma_obtain_values(m: ManagerModel, e: int, names: Seq<Seq<char>>)
    requires
        m.wf(),
        m.is_live(e),
        m.elems.len() + names.len() <= usize::MAX,
    ensures
        ({
            let n = obtain_model(m, e, names).0;
            &&& forall|x: int| #[trigger] n.is_live(x) && !m.is_live(x) ==> n.elems[x].value == ElemVal::Null
            &&& forall|x: int| #[trigger] m.is_live(x) ==> n.is_live(x) && n.elems[x].value == m.elems[x].value
        }),
    decreases names.len(),
{
    let n = obtain_model(m, e, names).0;
    if names.len() > 0 {
        let nm = names[0];
        let rest = names.drop_first();
        lemma_child_named_live(m, e, nm);
        match m.child_named(e, nm) {
            Some(c) => {
                lemma_obtain_values(m, c as int, rest);
            },
            None => {
                if valid_elem_name(nm) {
                    let grown = m.after_create(nm, ElemVal::Null, e);
                    let c = m.next_slot();
                    lemma_create_values(m, nm, ElemVal::Null, e);
                    lemma_obtain_values(grown, c, rest);
                    assert forall|x: int| #[trigger] n.is_live(x) && !m.is_live(x) implies n.elems[x].value
                        == ElemVal::Null by {
                        if grown.is_live(x) {
                            assert(x == c);
                        }
                    }
                    assert forall|x: int| #[trigger] m.is_live(x) implies n.is_live(x) && n.elems[x].value
                        == m.elems[x].value by {
                        assert(grown.is_live(x));
                    }
                }
            },
        }
    }
}

} // verus!
