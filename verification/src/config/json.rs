use vstd::prelude::*;
use vstd::string::StringExecFns;
use crate::config::value::ElemVal;
use crate::config::model::{ManagerModel, fresh_elem};
use crate::config::manager::{ElemHandle, Manager};
use crate::config::names::str_eq;
use std::collections::VecDeque;
use serde_json::Value;
use crate::config::names::{valid_elem_name, invalid_name_message};
use crate::config::text::{decimal, decimal_string};

verus! {

/// A JSON number as the parser holds it: a non-negative integer, a
/// negative integer, or a float kept as its `f64::to_bits` pattern.
#[derive(Debug)]
pub enum JsonNumber {
    PosInt(u64),
    NegInt(i64),
    Float(u64),
}

/// A parsed JSON document. Object members keep the order the parser gives
/// them.
#[derive(Debug)]
pub enum JsonValue {
    Null,
    Bool(bool),
    Number(JsonNumber),
    Str(String),
    Array(Vec<JsonValue>),
    Object(Vec<(String, JsonValue)>),
}

/// The parser's document type, `serde_json::Value`, declared so that it can
/// be carried from the parser to `json_value_from_serde`; nothing is seen
/// inside it.
#[verifier::external_type_specification]
#[verifier::external_body]
pub struct ExSerdeJsonValue(Value);

/// The result of parsing `text` with `serde_json::from_str::<serde_json::Value>`:
/// the document, or the text of the parser's error.
pub uninterp spec fn parsed_json(text: Seq<char>) -> Result<JsonValue, Seq<char>>;

/// Moves a `serde_json::Value` into a `JsonValue`, variant for variant
/// (through `serde_json::Number::as_u64`, `as_i64` and `as_f64` for numbers);
/// object members come in the order `serde_json::Map` yields them. Trusted,
/// with no contract of its own: what it returns is part of what
/// `parsed_json` names for `parse_json`.
#[verifier::external_body]
fn json_value_from_serde(v: Value) -> JsonValue {
    match v {
        Value::Null => JsonValue::Null,
        Value::Bool(b) => JsonValue::Bool(b),
        Value::Number(n) => JsonValue::Number(match (n.as_u64(), n.as_i64()) {
            (Some(u), _) => JsonNumber::PosInt(u),
            (None, Some(i)) => JsonNumber::NegInt(i),
            _ => JsonNumber::Float(n.as_f64().map(|x| x.to_bits()).unwrap_or_default()),
        }),
        Value::String(s) => JsonValue::Str(s),
        Value::Array(a) => JsonValue::Array(a.into_iter().map(json_value_from_serde).collect()),
        Value::Object(o) => JsonValue::Object(o.into_iter().map(|(k, x)| (k, json_value_from_serde(x))).collect()),
    }
}

/// Parses `text` with `serde_json::from_str::<serde_json::Value>`.
/// Trusted: the result is what `parsed_json` names for the text, the
/// document on success and the parser's error message (its `Display`
/// text) on failure.
#[verifier::external_body]
fn parse_json(text: &str) -> (r: Result<JsonValue, String>)
    ensures
        match r {
            Ok(v) => parsed_json(text@) == Ok::<JsonValue, Seq<char>>(v),
            Err(msg) => parsed_json(text@) == Err::<JsonValue, Seq<char>>(msg@),
        },
{
    match serde_json::from_str::<Value>(text) {
        Ok(v) => Ok(json_value_from_serde(v)),
        Err(e) => Err(e.to_string()),
    }
}

/// The element value the loader stores for a JSON number: floats as
/// `F64`, integers that fit `i64` as `I64`, larger ones as `U64`.
pub open spec fn number_value(n: JsonNumber) -> ElemVal {
    match n {
        JsonNumber::PosInt(u) => if u <= i64::MAX {
            ElemVal::I64(u as i64)
        } else {
            ElemVal::U64(u)
        },
        JsonNumber::NegInt(i) => ElemVal::I64(i),
        JsonNumber::Float(bits) => ElemVal::F64(bits),
    }
}

/// The element value the loader stores for a JSON value; containers store
/// no scalar, their members become child elements.
pub open spec fn elem_value_of(v: JsonValue) -> ElemVal {
    match v {
        JsonValue::Null => ElemVal::Null,
        JsonValue::Bool(b) => ElemVal::Bool(b),
        JsonValue::Number(n) => number_value(n),
        JsonValue::Str(s) => ElemVal::Str(s),
        JsonValue::Array(_) => ElemVal::Array,
        JsonValue::Object(_) => ElemVal::Object,
    }
}

/// The items of an array value.
pub open spec fn array_part(v: JsonValue) -> Option<Vec<JsonValue>> {
    match v {
        JsonValue::Array(a) => Some(a),
        _ => None,
    }
}

/// The members of an object value.
pub open spec fn object_part(v: JsonValue) -> Option<Vec<(String, JsonValue)>> {
    match v {
        JsonValue::Object(o) => Some(o),
        _ => None,
    }
}

/// How many entries a value has: items of an array, members of an object.
pub open spec fn entry_count(v: JsonValue) -> nat {
    match v {
        JsonValue::Array(a) => a@.len(),
        JsonValue::Object(o) => o@.len(),
        _ => 0,
    }
}

/// Entry `t` of a value with its name: an array item is named by its index.
pub open spec fn entry_at(v: JsonValue, t: int) -> (Seq<char>, JsonValue) {
    match v {
        JsonValue::Array(a) => (decimal(t as nat), a@[t]),
        JsonValue::Object(o) => (o@[t].0@, o@[t].1),
        _ => (Seq::empty(), JsonValue::Null),
    }
}

/// A member named `Meta` carries metadata rather than a child element.
pub open spec fn is_meta_name(name: Seq<char>) -> bool {
    name == "Meta"@
}

/// The entries among the first `t` of `v` that become child elements, in
/// order, with their names.
pub open spec fn members_upto(v: JsonValue, t: nat) -> Seq<(Seq<char>, JsonValue)>
    decreases t,
{
    if t == 0 {
        Seq::empty()
    } else {
        let before = members_upto(v, (t - 1) as nat);
        let en = entry_at(v, t - 1);
        if v is Object && is_meta_name(en.0) {
            before
        } else {
            before.push(en)
        }
    }
}

/// The entries of `v` that become child elements.
pub open spec fn members(v: JsonValue) -> Seq<(Seq<char>, JsonValue)> {
    members_upto(v, entry_count(v))
}

/// The metadata pairs `ps` stored into `m`, in order; only string values
/// are stored.
pub open spec fn insert_meta_pairs(m: Map<Seq<char>, Seq<char>>, ps: Seq<(String, JsonValue)>) -> Map<
    Seq<char>,
    Seq<char>,
>
    decreases ps.len(),
{
    if ps.len() == 0 {
        m
    } else {
        let m1 = insert_meta_pairs(m, ps.drop_last());
        match ps.last().1 {
            JsonValue::Str(s) => m1.insert(ps.last().0@, s@),
            _ => m1,
        }
    }
}

/// The metadata the first `t` entries of `v` give its element: the pairs of
/// each `Meta` object member, in order.
pub open spec fn meta_upto(v: JsonValue, t: nat) -> Map<Seq<char>, Seq<char>>
    decreases t,
{
    if t == 0 {
        Map::empty()
    } else {
        let before = meta_upto(v, (t - 1) as nat);
        let en = entry_at(v, t - 1);
        if v is Object && is_meta_name(en.0) {
            match en.1 {
                JsonValue::Object(ps) => insert_meta_pairs(before, ps@),
                _ => before,
            }
        } else {
            before
        }
    }
}

/// Entry `t` of `v` is acceptable: a `Meta` member must be an object of
/// strings, any other member name must be a valid element name (array
/// items always are).
pub open spec fn entry_valid_at(v: JsonValue, t: int) -> bool {
    match v {
        JsonValue::Object(o) => if is_meta_name(o@[t].0@) {
            match o@[t].1 {
                JsonValue::Object(ps) => forall|u: int| 0 <= u < ps@.len() ==> (#[trigger] ps@[u]).1 is Str,
                _ => false,
            }
        } else {
            valid_elem_name(o@[t].0@)
        },
        _ => true,
    }
}

/// Every entry of `v` is acceptable.
pub open spec fn local_valid(v: JsonValue) -> bool {
    forall|t: int| 0 <= t < entry_count(v) ==> #[trigger] entry_valid_at(v, t)
}

/// The value at `path` (a list of member positions) inside `v`.
pub open spec fn sub_at(v: JsonValue, path: Seq<int>) -> Option<JsonValue>
    decreases path.len(),
{
    if path.len() == 0 {
        Some(v)
    } else {
        let ms = members(v);
        if 0 <= path[0] < ms.len() {
            sub_at(ms[path[0]].1, path.drop_first())
        } else {
            None
        }
    }
}

/// Every value inside the document, the document included, is acceptable.
pub open spec fn doc_valid(doc: JsonValue) -> bool {
    forall|p: Seq<int>| #[trigger] sub_at(doc, p) is Some ==> local_valid(sub_at(doc, p).unwrap())
}

/// Slot `h` holds, as children, the elements for the first `t` entries of
/// its document value `a[h]`, with their names and values, and the metadata
/// of those entries; `paths` gives each slot's position in the document.
pub open spec fn slot_upto(m: ManagerModel, a: Map<int, JsonValue>, paths: Map<int, Seq<int>>, h: int, t: nat) -> bool {
    let ms = members_upto(a[h], t);
    let cs = m.elems[h].children;
    &&& cs.len() == ms.len()
    &&& m.elems[h].meta == meta_upto(a[h], t)
    &&& forall|i: int|
        0 <= i < ms.len() ==> {
            &&& 0 <= #[trigger] cs[i] < m.elems.len()
            &&& a[cs[i] as int] == ms[i].1
            &&& paths[cs[i] as int] == paths[h].push(i)
            &&& m.elems[cs[i] as int].name == ms[i].0
            &&& m.elems[cs[i] as int].value == elem_value_of(ms[i].1)
        }
}

/// `m` is the tree of `doc`: every slot stands for a value inside the
/// document (slot 0 for the document itself) and holds the elements for all
/// of its members, named and valued as the loader gives them, with its
/// metadata.
pub open spec fn loaded_from(m: ManagerModel, doc: JsonValue) -> bool {
    exists|a: Map<int, JsonValue>, paths: Map<int, Seq<int>>|
        {
            &&& a[0] == doc
            &&& paths[0] == Seq::<int>::empty()
            &&& m.elems.len() == load_order(doc).len()
            &&& forall|i: int|
                0 <= i < m.elems.len() ==> {
                    &&& #[trigger] paths[i] == load_order(doc)[i]
                    &&& sub_at(doc, paths[i]) == Some(a[i])
                    &&& slot_upto(m, a, paths, i, entry_count(a[i]))
                }
        }
}

/// Going one member further down a path.
pub proof fn lemma_sub_at_push(v: JsonValue, p: Seq<int>, j: int)
    ensures
        sub_at(v, p.push(j)) == match sub_at(v, p) {
            Some(x) => if 0 <= j < members(x).len() {
                Some(members(x)[j].1)
            } else {
                None
            },
            None => None,
        },
    decreases p.len(),
{
    let ms = members(v);
    if p.len() == 0 {
        assert(p.push(j).drop_first() =~= Seq::<int>::empty());
        assert(p.push(j)[0] == j);
        if 0 <= j < ms.len() {
            assert(sub_at(ms[j].1, Seq::<int>::empty()) == Some(ms[j].1));
        }
    } else {
        assert(p.push(j).drop_first() =~= p.drop_first().push(j));
        assert(p.push(j)[0] == p[0]);
        if 0 <= p[0] < ms.len() {
            lemma_sub_at_push(ms[p[0]].1, p.drop_first(), j);
        }
    }
}

/// The members of the first `t` entries are the first members overall.
pub proof fn lemma_members_prefix(v: JsonValue, t: nat, u: nat)
    requires
        t <= u,
    ensures
        members_upto(v, t).len() <= members_upto(v, u).len(),
        forall|i: int| 0 <= i < members_upto(v, t).len() ==> members_upto(v, u)[i] == members_upto(v, t)[i],
    decreases u - t,
{
    if t < u {
        lemma_members_prefix(v, t, (u - 1) as nat);
    }
}

/// The name the loader gives the element for the value at `path`: the
/// member name under which it sits (empty for the document itself).
pub open spec fn name_at_path(doc: JsonValue, path: Seq<int>) -> Seq<char> {
    if path.len() == 0 {
        Seq::empty()
    } else {
        match sub_at(doc, path.drop_last()) {
            Some(x) => members(x)[path.last()].0,
            None => Seq::empty(),
        }
    }
}

/// The message for a `Meta` member that is not an object, under the element
/// named `parent`.
pub open spec fn meta_field_message(parent: Seq<char>) -> Seq<char> {
    "Meta field under '"@ + parent + "' must be an object."@
}

/// The message for a `Meta` pair named `key` whose value is not a string,
/// under the element named `parent`.
pub open spec fn meta_value_message(key: Seq<char>, parent: Seq<char>) -> Seq<char> {
    "Meta value '"@ + key + "' under '"@ + parent + "' must have a string value."@
}

/// Pair `u` is the first of `ps` whose value is not a string.
pub open spec fn first_non_string(ps: Seq<(String, JsonValue)>, u: int) -> bool {
    &&& 0 <= u < ps.len()
    &&& !(ps[u].1 is Str)
    &&& forall|w: int| 0 <= w < u ==> (#[trigger] ps[w]).1 is Str
}

/// The message with which the loader refuses member `(key, val)` of the
/// element named `parent`, when it refuses it.
pub open spec fn member_error(key: Seq<char>, val: JsonValue, parent: Seq<char>, msg: Seq<char>) -> bool {
    if is_meta_name(key) {
        match val {
            JsonValue::Object(ps) => exists|u: int| first_non_string(ps@, u) && msg == meta_value_message(ps@[u].0@, parent),
            _ => msg == meta_field_message(parent),
        }
    } else {
        !valid_elem_name(key) && msg == invalid_name_message(key)
    }
}

/// The positions of the members of the value at `p`.
pub open spec fn child_paths(doc: JsonValue, p: Seq<int>) -> Seq<Seq<int>> {
    Seq::new(members(sub_at(doc, p).unwrap()).len(), |j: int| p.push(j))
}

/// The positions a breadth-first walk of `doc` visits, in order, starting
/// from the queue `q`; `fuel` bounds the number of visits.
pub open spec fn json_bfs(doc: JsonValue, q: Seq<Seq<int>>, fuel: nat) -> Seq<Seq<int>>
    decreases fuel,
{
    if fuel == 0 || q.len() == 0 {
        Seq::empty()
    } else {
        seq![q[0]] + json_bfs(doc, q.drop_first() + child_paths(doc, q[0]), (fuel - 1) as nat)
    }
}

/// The order in which the loader creates elements: the positions of `doc`
/// breadth first, the document itself first.
pub open spec fn load_order(doc: JsonValue) -> Seq<Seq<int>> {
    json_bfs(doc, seq![Seq::<int>::empty()], json_size(doc))
}

/// The value at position `k` of the loading order.
pub open spec fn value_in_order(doc: JsonValue, k: int) -> JsonValue {
    sub_at(doc, load_order(doc)[k]).unwrap()
}

/// `msg` is what the loader reports when it refuses `doc`: the message of
/// the first unacceptable member, taking values in loading order and the
/// members of each in order.
pub open spec fn load_error(doc: JsonValue, msg: Seq<char>) -> bool {
    exists|k: int, t: int|
        #![trigger load_order(doc)[k], entry_at(value_in_order(doc, k), t)]
        {
            &&& 0 <= k < load_order(doc).len()
            &&& sub_at(doc, load_order(doc)[k]) is Some
            &&& value_in_order(doc, k) is Object
            &&& 0 <= t < entry_count(value_in_order(doc, k))
            &&& forall|k2: int| 0 <= k2 < k ==> local_valid(#[trigger] value_in_order(doc, k2))
            &&& forall|t2: int| 0 <= t2 < t ==> #[trigger] entry_valid_at(value_in_order(doc, k), t2)
            &&& !entry_valid_at(value_in_order(doc, k), t)
            &&& member_error(
                entry_at(value_in_order(doc, k), t).0,
                entry_at(value_in_order(doc, k), t).1,
                name_at_path(doc, load_order(doc)[k]),
                msg,
            )
        }
}

/// The number of values inside `v`, `v` included.
pub open spec fn json_size(v: JsonValue) -> nat
    decreases v, entry_count(v) + 1,
{
    1 + entries_size(v, 0)
}

/// The number of values inside the entries of `v` from entry `t` on.
pub open spec fn entries_size(v: JsonValue, t: nat) -> nat
    decreases v, entry_count(v) - t,
{
    if t >= entry_count(v) {
        0
    } else {
        proof {
            match v {
                JsonValue::Array(a) => {
                    assert(decreases_to!(v => a@[t as int]));
                },
                JsonValue::Object(o) => {
                    assert(decreases_to!(v => o@[t as int].1));
                },
                _ => {},
            }
        }
        json_size(entry_at(v, t as int).1) + entries_size(v, t + 1)
    }
}

/// A loaded element whose document members are still to be added.
struct JsonElem {
    e: ElemHandle,
    arr_val: Option<Vec<JsonValue>>,
    obj_val: Option<Vec<(String, JsonValue)>>,
}

/// What the loader knows of slot `i`: the document value `a[i]` it stands
/// for sits at `paths[i]`, its first `prog[i]` entries are loaded and were
/// acceptable, and unless all are loaded it is the slot being filled or
/// waits in the frontier.
spec fn slot_inv(
    m: ManagerModel,
    f: Seq<JsonElem>,
    a: Map<int, JsonValue>,
    paths: Map<int, Seq<int>>,
    prog: Map<int, nat>,
    doc: JsonValue,
    cur: int,
    i: int,
) -> bool {
    &&& sub_at(doc, paths[i]) == Some(a[i])
    &&& m.elems[i].name == name_at_path(doc, paths[i])
    &&& prog[i] <= entry_count(a[i])
    &&& slot_upto(m, a, paths, i, prog[i])
    &&& forall|t: int| 0 <= t < prog[i] ==> #[trigger] entry_valid_at(a[i], t)
    &&& (prog[i] == entry_count(a[i]) || i == cur || exists|k: int| 0 <= k < f.len() && f[k].e@ == i)
}

/// A frontier entry waits for a slot none of whose entries is loaded yet,
/// and carries that slot's array items or object members.
spec fn pending_ok(m: ManagerModel, a: Map<int, JsonValue>, prog: Map<int, nat>, cur: int, je: JsonElem) -> bool {
    &&& je.e@ < m.elems.len()
    &&& je.e@ != cur
    &&& prog[je.e@ as int] == 0
    &&& je.arr_val == array_part(a[je.e@ as int])
    &&& je.obj_val == object_part(a[je.e@ as int])
}

/// The loader's invariant.
spec fn loader_inv(
    m: ManagerModel,
    f: Seq<JsonElem>,
    a: Map<int, JsonValue>,
    paths: Map<int, Seq<int>>,
    prog: Map<int, nat>,
    doc: JsonValue,
    cur: int,
) -> bool {
    &&& m.wf()
    &&& m.vacant.len() == 0
    &&& m.elems[0].name == Seq::<char>::empty()
    &&& m.elems[0].value == ElemVal::Object
    &&& a[0] == doc
    &&& paths[0] == Seq::<int>::empty()
    &&& forall|i: int| 0 <= i < m.elems.len() ==> #[trigger] slot_inv(m, f, a, paths, prog, doc, cur, i)
    &&& forall|k: int| 0 <= k < f.len() ==> #[trigger] pending_ok(m, a, prog, cur, f[k])
    &&& forall|k1: int, k2: int|
        0 <= k1 < f.len() && 0 <= k2 < f.len() && k1 != k2 ==> (#[trigger] f[k1]).e@ != (#[trigger] f[k2]).e@
}

/// The slot being filled leaves the frontier.
proof fn lemma_loader_pop(
    m: ManagerModel,
    f: Seq<JsonElem>,
    a: Map<int, JsonValue>,
    paths: Map<int, Seq<int>>,
    prog: Map<int, nat>,
    doc: JsonValue,
)
    requires
        loader_inv(m, f, a, paths, prog, doc, -1),
        f.len() > 0,
    ensures
        loader_inv(m, f.drop_first(), a, paths, prog, doc, f[0].e@ as int),
        pending_ok(m, a, prog, -1, f[0]),
{
    let h = f[0].e@ as int;
    let g = f.drop_first();
    assert(pending_ok(m, a, prog, -1, f[0]));
    assert forall|i: int| 0 <= i < m.elems.len() implies #[trigger] slot_inv(m, g, a, paths, prog, doc, h, i) by {
        assert(slot_inv(m, f, a, paths, prog, doc, -1, i));
        if prog[i] != entry_count(a[i]) && i != h {
            let k = choose|k: int| 0 <= k < f.len() && f[k].e@ == i;
            assert(k != 0);
            assert(g[k - 1] == f[k]);
        }
    }
    assert forall|k: int| 0 <= k < g.len() implies #[trigger] pending_ok(m, a, prog, h, g[k]) by {
        assert(g[k] == f[k + 1]);
        assert(pending_ok(m, a, prog, -1, f[k + 1]));
        assert(f[k + 1].e@ != f[0].e@);
    }
    assert forall|k1: int, k2: int| 0 <= k1 < g.len() && 0 <= k2 < g.len() && k1 != k2 implies (#[trigger] g[k1]).e@
        != (#[trigger] g[k2]).e@ by {
        assert(g[k1] == f[k1 + 1] && g[k2] == f[k2 + 1]);
    }
}

/// Once all its entries are loaded, no slot is being filled.
proof fn lemma_loader_done_slot(
    m: ManagerModel,
    f: Seq<JsonElem>,
    a: Map<int, JsonValue>,
    paths: Map<int, Seq<int>>,
    prog: Map<int, nat>,
    doc: JsonValue,
    h: int,
)
    requires
        loader_inv(m, f, a, paths, prog, doc, h),
        0 <= h < m.elems.len(),
        prog[h] == entry_count(a[h]),
    ensures
        loader_inv(m, f, a, paths, prog, doc, -1),
{
    assert forall|i: int| 0 <= i < m.elems.len() implies #[trigger] slot_inv(m, f, a, paths, prog, doc, -1, i) by {
        assert(slot_inv(m, f, a, paths, prog, doc, h, i));
    }
    assert forall|k: int| 0 <= k < f.len() implies #[trigger] pending_ok(m, a, prog, -1, f[k]) by {
        assert(pending_ok(m, a, prog, h, f[k]));
    }
}

/// Loading entry `t` of the slot being filled, when it becomes a child
/// element stored in a new slot at the end.
proof fn lemma_loader_member(
    m: ManagerModel,
    f: Seq<JsonElem>,
    a: Map<int, JsonValue>,
    paths: Map<int, Seq<int>>,
    prog: Map<int, nat>,
    doc: JsonValue,
    h: int,
    m2: ManagerModel,
    je: JsonElem,
)
    requires
        loader_inv(m, f, a, paths, prog, doc, h),
        0 <= h < m.elems.len(),
        prog[h] < entry_count(a[h]),
        !(a[h] is Object && is_meta_name(entry_at(a[h], prog[h] as int).0)),
        entry_valid_at(a[h], prog[h] as int),
        m2 == m.after_create(
            entry_at(a[h], prog[h] as int).0,
            elem_value_of(entry_at(a[h], prog[h] as int).1),
            h,
        ),
        m2.wf(),
        je.e@ == m.elems.len(),
        je.arr_val == array_part(entry_at(a[h], prog[h] as int).1),
        je.obj_val == object_part(entry_at(a[h], prog[h] as int).1),
    ensures
        ({
            let l = m.elems.len() as int;
            let t = prog[h];
            let item = entry_at(a[h], t as int).1;
            loader_inv(
                m2,
                f.push(je),
                a.insert(l, item),
                paths.insert(l, paths[h].push(members_upto(a[h], t).len() as int)),
                prog.insert(l, 0).insert(h, t + 1),
                doc,
                h,
            )
        }),
{
    let l = m.elems.len() as int;
    let t = prog[h];
    let en = entry_at(a[h], t as int);
    let item = en.1;
    let j = members_upto(a[h], t).len() as int;
    let f2 = f.push(je);
    let a2 = a.insert(l, item);
    let paths2 = paths.insert(l, paths[h].push(j));
    let prog2 = prog.insert(l, 0).insert(h, t + 1);
    assert(m.next_slot() == l);
    assert(m2.elems.len() == l + 1);
    assert(m2.elems[l] == fresh_elem(en.0, elem_value_of(item), h));
    assert(m2.elems[h] == m.elems[h].with_children(m.elems[h].children.push(l as usize)));
    assert forall|i: int| 0 <= i < l && i != h implies #[trigger] m2.elems[i] == m.elems[i] by {}
    assert(members_upto(a[h], t + 1) == members_upto(a[h], t).push(en));
    assert(meta_upto(a[h], t + 1) == meta_upto(a[h], t));
    // the new slot's document position
    assert(slot_inv(m, f, a, paths, prog, doc, h, h));
    lemma_sub_at_push(doc, paths[h], j);
    lemma_members_prefix(a[h], t + 1, entry_count(a[h]));
    assert(members(a[h])[j] == en);
    assert forall|i: int| 0 <= i < m2.elems.len() implies #[trigger] slot_inv(m2, f2, a2, paths2, prog2, doc, h, i) by {
        if i == l {
            assert(members_upto(item, 0).len() == 0);
            assert(f2[f.len() as int] == je);
            assert(paths2[l].drop_last() =~= paths[h]);
            assert(paths2[l].last() == j);
        } else {
            assert(slot_inv(m, f, a, paths, prog, doc, h, i));
            assert(a2[i] == a[i] && paths2[i] == paths[i]);
            let ms = members_upto(a[i], prog[i]);
            let cs = m.elems[i].children;
            if i == h {
                let ms2 = members_upto(a[h], t + 1);
                let cs2 = m2.elems[h].children;
                assert forall|q: int| 0 <= q < ms2.len() implies {
                    &&& 0 <= #[trigger] cs2[q] < m2.elems.len()
                    &&& a2[cs2[q] as int] == ms2[q].1
                    &&& paths2[cs2[q] as int] == paths2[h].push(q)
                    &&& m2.elems[cs2[q] as int].name == ms2[q].0
                    &&& m2.elems[cs2[q] as int].value == elem_value_of(ms2[q].1)
                } by {
                    if q < ms.len() {
                        assert(cs2[q] == cs[q]);
                        assert(ms2[q] == ms[q]);
                        assert(0 <= cs[q] < m.elems.len());
                        if cs[q] as int == h {
                        } else {
                            assert(m2.elems[cs[q] as int] == m.elems[cs[q] as int]);
                        }
                    } else {
                        assert(q == j);
                        assert(cs2[q] == l as usize);
                    }
                }
                assert(slot_upto(m2, a2, paths2, h, t + 1));
            } else {
                assert forall|q: int| 0 <= q < ms.len() implies {
                    &&& 0 <= #[trigger] cs[q] < m2.elems.len()
                    &&& a2[cs[q] as int] == ms[q].1
                    &&& paths2[cs[q] as int] == paths2[i].push(q)
                    &&& m2.elems[cs[q] as int].name == ms[q].0
                    &&& m2.elems[cs[q] as int].value == elem_value_of(ms[q].1)
                } by {
                    assert(0 <= cs[q] < m.elems.len());
                    if cs[q] as int != h {
                        assert(m2.elems[cs[q] as int] == m.elems[cs[q] as int]);
                    }
                }
                assert(m2.elems[i].children == cs);
                assert(slot_upto(m2, a2, paths2, i, prog2[i]));
                if prog[i] != entry_count(a[i]) && i != h {
                    let k = choose|k: int| 0 <= k < f.len() && f[k].e@ == i;
                    assert(f2[k] == f[k]);
                }
            }
        }
    }
    assert forall|k: int| 0 <= k < f2.len() implies #[trigger] pending_ok(m2, a2, prog2, h, f2[k]) by {
        if k < f.len() {
            assert(f2[k] == f[k]);
            assert(pending_ok(m, a, prog, h, f[k]));
        } else {
            assert(f2[k] == je);
        }
    }
    assert forall|k1: int, k2: int| 0 <= k1 < f2.len() && 0 <= k2 < f2.len() && k1 != k2 implies (#[trigger] f2[k1]).e@
        != (#[trigger] f2[k2]).e@ by {
        if k1 < f.len() {
            assert(f2[k1] == f[k1]);
            assert(pending_ok(m, a, prog, h, f[k1]));
        }
        if k2 < f.len() {
            assert(f2[k2] == f[k2]);
            assert(pending_ok(m, a, prog, h, f[k2]));
        }
    }
}

/// Loading entry `t` of the slot being filled, when it is a `Meta` object
/// whose pairs become metadata.
proof fn lemma_loader_meta(
    m: ManagerModel,
    f: Seq<JsonElem>,
    a: Map<int, JsonValue>,
    paths: Map<int, Seq<int>>,
    prog: Map<int, nat>,
    doc: JsonValue,
    h: int,
    ps: Vec<(String, JsonValue)>,
    m2: ManagerModel,
)
    requires
        loader_inv(m, f, a, paths, prog, doc, h),
        0 <= h < m.elems.len(),
        prog[h] < entry_count(a[h]),
        a[h] is Object,
        is_meta_name(entry_at(a[h], prog[h] as int).0),
        entry_at(a[h], prog[h] as int).1 == JsonValue::Object(ps),
        entry_valid_at(a[h], prog[h] as int),
        m2 == m.with_elem(h, m.elems[h].with_meta(insert_meta_pairs(m.elems[h].meta, ps@))),
        m2.wf(),
    ensures
        loader_inv(m2, f, a, paths, prog.insert(h, prog[h] + 1), doc, h),
{
    let t = prog[h];
    let prog2 = prog.insert(h, t + 1);
    assert(members_upto(a[h], t + 1) == members_upto(a[h], t));
    assert(meta_upto(a[h], t + 1) == insert_meta_pairs(meta_upto(a[h], t), ps@));
    assert forall|i: int| 0 <= i < m2.elems.len() implies #[trigger] slot_inv(m2, f, a, paths, prog2, doc, h, i) by {
        assert(slot_inv(m, f, a, paths, prog, doc, h, i));
        let ms = members_upto(a[i], prog2[i]);
        let cs = m2.elems[i].children;
        assert(cs == m.elems[i].children);
        assert forall|q: int| 0 <= q < ms.len() implies {
            &&& 0 <= #[trigger] cs[q] < m2.elems.len()
            &&& a[cs[q] as int] == ms[q].1
            &&& paths[cs[q] as int] == paths[i].push(q)
            &&& m2.elems[cs[q] as int].name == ms[q].0
            &&& m2.elems[cs[q] as int].value == elem_value_of(ms[q].1)
        } by {
            assert(0 <= cs[q] < m.elems.len());
        }
    }
    assert forall|k: int| 0 <= k < f.len() implies #[trigger] pending_ok(m2, a, prog2, h, f[k]) by {
        assert(pending_ok(m, a, prog, h, f[k]));
    }
}

/// A path inside the document leads to a slot standing for it, once the
/// loader has finished.
proof fn lemma_path_slot(
    m: ManagerModel,
    a: Map<int, JsonValue>,
    paths: Map<int, Seq<int>>,
    prog: Map<int, nat>,
    doc: JsonValue,
    p: Seq<int>,
)
    requires
        loader_inv(m, Seq::empty(), a, paths, prog, doc, -1),
        sub_at(doc, p) is Some,
    ensures
        exists|i: int| 0 <= i < m.elems.len() && paths[i] == p,
    decreases p.len(),
{
    if p.len() == 0 {
        assert(paths[0] == p);
    } else {
        let q = p.drop_last();
        let j = p.last();
        assert(p =~= q.push(j));
        lemma_sub_at_push(doc, q, j);
        lemma_path_slot(m, a, paths, prog, doc, q);
        let i = choose|i: int| 0 <= i < m.elems.len() && paths[i] == q;
        assert(slot_inv(m, Seq::empty(), a, paths, prog, doc, -1, i));
        assert(prog[i] == entry_count(a[i]));
        let c = m.elems[i].children[j] as int;
        assert(paths[c] == p);
    }
}

/// When the frontier is empty and no slot is being filled, the tree is the
/// document's and the document was acceptable throughout.
proof fn lemma_loader_finished(
    m: ManagerModel,
    a: Map<int, JsonValue>,
    paths: Map<int, Seq<int>>,
    prog: Map<int, nat>,
    doc: JsonValue,
)
    requires
        loader_inv(m, Seq::empty(), a, paths, prog, doc, -1),
        m.elems.len() == load_order(doc).len(),
        forall|i: int| 0 <= i < m.elems.len() ==> paths[i] == load_order(doc)[i],
    ensures
        loaded_from(m, doc),
        doc_valid(doc),
{
    assert forall|i: int| 0 <= i < m.elems.len() implies {
        &&& #[trigger] paths[i] == load_order(doc)[i]
        &&& sub_at(doc, paths[i]) == Some(a[i])
        &&& slot_upto(m, a, paths, i, entry_count(a[i]))
    } by {
        assert(slot_inv(m, Seq::empty(), a, paths, prog, doc, -1, i));
    }
    assert forall|p: Seq<int>| #[trigger] sub_at(doc, p) is Some implies local_valid(sub_at(doc, p).unwrap()) by {
        lemma_path_slot(m, a, paths, prog, doc, p);
        let i = choose|i: int| 0 <= i < m.elems.len() && paths[i] == p;
        assert(slot_inv(m, Seq::empty(), a, paths, prog, doc, -1, i));
    }
}

/// An unacceptable entry of the slot being filled makes the document
/// unacceptable.
proof fn lemma_loader_rejects(
    m: ManagerModel,
    f: Seq<JsonElem>,
    a: Map<int, JsonValue>,
    paths: Map<int, Seq<int>>,
    prog: Map<int, nat>,
    doc: JsonValue,
    h: int,
)
    requires
        loader_inv(m, f, a, paths, prog, doc, h),
        0 <= h < m.elems.len(),
        prog[h] < entry_count(a[h]),
        !entry_valid_at(a[h], prog[h] as int),
    ensures
        !doc_valid(doc),
{
    assert(slot_inv(m, f, a, paths, prog, doc, h, h));
    assert(sub_at(doc, paths[h]) is Some);
    assert(!local_valid(a[h]));
}

/// The work left in the frontier: the sizes of the values it waits on.
spec fn pending_weight(f: Seq<JsonElem>, a: Map<int, JsonValue>) -> nat
    decreases f.len(),
{
    if f.len() == 0 {
        0
    } else {
        json_size(a[f[0].e@ as int]) + pending_weight(f.drop_first(), a)
    }
}

proof fn lemma_weight_push(f: Seq<JsonElem>, a: Map<int, JsonValue>, x: JsonElem)
    ensures
        pending_weight(f.push(x), a) == pending_weight(f, a) + json_size(a[x.e@ as int]),
    decreases f.len(),
{
    if f.len() > 0 {
        assert(f.push(x).drop_first() =~= f.drop_first().push(x));
        assert(f.push(x)[0] == f[0]);
        lemma_weight_push(f.drop_first(), a, x);
    } else {
        assert(f.push(x).drop_first() =~= Seq::<JsonElem>::empty());
        assert(f.push(x)[0] == x);
        assert(pending_weight(Seq::<JsonElem>::empty(), a) == 0);
    }
}

proof fn lemma_weight_frame(f: Seq<JsonElem>, a: Map<int, JsonValue>, a2: Map<int, JsonValue>)
    requires
        forall|k: int| 0 <= k < f.len() ==> a2[(#[trigger] f[k]).e@ as int] == a[f[k].e@ as int],
    ensures
        pending_weight(f, a2) == pending_weight(f, a),
    decreases f.len(),
{
    if f.len() > 0 {
        assert(a2[f[0].e@ as int] == a[f[0].e@ as int]);
        assert forall|k: int| 0 <= k < f.drop_first().len() implies a2[(#[trigger] f.drop_first()[k]).e@ as int]
            == a[f.drop_first()[k].e@ as int] by {
            assert(f.drop_first()[k] == f[k + 1]);
        }
        lemma_weight_frame(f.drop_first(), a, a2);
    }
}

/// The paths of slots `lo..hi`, in slot order.
spec fn slot_paths(paths: Map<int, Seq<int>>, lo: int, hi: int) -> Seq<Seq<int>> {
    Seq::new((hi - lo) as nat, |k: int| paths[lo + k])
}

/// The loader between two slots: slots `0..c` are filled, the frontier
/// holds slots `c..` in slot order, and the loading order of `doc` is the
/// paths of the filled slots followed by what a walk from the frontier's
/// paths visits.
spec fn order_inv(
    m: ManagerModel,
    f: Seq<JsonElem>,
    a: Map<int, JsonValue>,
    paths: Map<int, Seq<int>>,
    prog: Map<int, nat>,
    doc: JsonValue,
    c: int,
) -> bool {
    &&& 0 <= c <= m.elems.len()
    &&& f.len() == m.elems.len() - c
    &&& forall|k: int| 0 <= k < f.len() ==> (#[trigger] f[k]).e@ == c + k
    &&& forall|i: int| 0 <= i < c ==> #[trigger] prog[i] == entry_count(a[i])
    &&& pending_weight(f, a) + c <= json_size(doc)
    &&& load_order(doc) == slot_paths(paths, 0, c) + json_bfs(
        doc,
        slot_paths(paths, c, m.elems.len() as int),
        (json_size(doc) - c) as nat,
    )
}

/// The loader while it fills slot `h`: the slots created so far for its
/// members follow the `len0` slots there were when it started, in member
/// order; `p0` and `w0` are the paths and the pending work at that start.
spec fn filling_inv(
    m: ManagerModel,
    f: Seq<JsonElem>,
    a: Map<int, JsonValue>,
    paths: Map<int, Seq<int>>,
    prog: Map<int, nat>,
    doc: JsonValue,
    h: int,
    len0: int,
    p0: Map<int, Seq<int>>,
    w0: nat,
) -> bool {
    &&& 0 <= h < len0 <= m.elems.len()
    &&& f.len() == m.elems.len() - (h + 1)
    &&& forall|k: int| 0 <= k < f.len() ==> (#[trigger] f[k]).e@ == h + 1 + k
    &&& forall|i: int| 0 <= i < h ==> #[trigger] prog[i] == entry_count(a[i])
    &&& w0 + h <= json_size(doc)
    &&& m.elems.len() - len0 == members_upto(a[h], prog[h]).len()
    &&& forall|k: int| 0 <= k < m.elems.len() - len0 ==> #[trigger] paths[len0 + k] == paths[h].push(k)
    &&& forall|i: int| 0 <= i < len0 ==> #[trigger] paths[i] == p0[i]
    &&& load_order(doc) == slot_paths(p0, 0, h + 1) + json_bfs(
        doc,
        slot_paths(p0, h + 1, len0) + child_paths(doc, p0[h]),
        (json_size(doc) - h - 1) as nat,
    )
}

/// Taking the next slot from the frontier.
proof fn lemma_order_pop(
    m: ManagerModel,
    f: Seq<JsonElem>,
    a: Map<int, JsonValue>,
    paths: Map<int, Seq<int>>,
    prog: Map<int, nat>,
    doc: JsonValue,
    c: int,
)
    requires
        loader_inv(m, f, a, paths, prog, doc, -1),
        order_inv(m, f, a, paths, prog, doc, c),
        f.len() > 0,
    ensures
        f[0].e@ == c,
        filling_inv(m, f.drop_first(), a, paths, prog, doc, c, m.elems.len() as int, paths, pending_weight(f, a)),
{
    let len = m.elems.len() as int;
    let g = f.drop_first();
    assert(f[0].e@ == c);
    assert(pending_ok(m, a, prog, -1, f[0]));
    assert(pending_weight(f, a) == json_size(a[c]) + pending_weight(g, a));
    let q = slot_paths(paths, c, len);
    let fuel = (json_size(doc) - c) as nat;
    assert(fuel >= 1);
    assert(q[0] == paths[c]);
    assert(q.drop_first() =~= slot_paths(paths, c + 1, len));
    assert(json_bfs(doc, q, fuel) == seq![paths[c]] + json_bfs(doc, q.drop_first() + child_paths(doc, q[0]), (fuel - 1) as nat));
    assert(slot_paths(paths, 0, c) + (seq![paths[c]] + json_bfs(doc, q.drop_first() + child_paths(doc, q[0]), (fuel - 1) as nat))
        =~= slot_paths(paths, 0, c + 1) + json_bfs(doc, q.drop_first() + child_paths(doc, q[0]), (fuel - 1) as nat));
    assert forall|k: int| 0 <= k < g.len() implies (#[trigger] g[k]).e@ == c + 1 + k by {
        assert(g[k] == f[k + 1]);
    }
    assert(members_upto(a[c], prog[c]).len() == 0);
}

/// Filling slot `h` with one more member element.
proof fn lemma_filling_member(
    m: ManagerModel,
    f: Seq<JsonElem>,
    a: Map<int, JsonValue>,
    paths: Map<int, Seq<int>>,
    prog: Map<int, nat>,
    doc: JsonValue,
    h: int,
    len0: int,
    p0: Map<int, Seq<int>>,
    w0: nat,
    m2: ManagerModel,
    je: JsonElem,
)
    requires
        filling_inv(m, f, a, paths, prog, doc, h, len0, p0, w0),
        prog[h] < entry_count(a[h]),
        !(a[h] is Object && is_meta_name(entry_at(a[h], prog[h] as int).0)),
        m2.elems.len() == m.elems.len() + 1,
        je.e@ == m.elems.len(),
    ensures
        ({
            let l = m.elems.len() as int;
            let t = prog[h];
            let item = entry_at(a[h], t as int).1;
            filling_inv(
                m2,
                f.push(je),
                a.insert(l, item),
                paths.insert(l, paths[h].push(members_upto(a[h], t).len() as int)),
                prog.insert(l, 0).insert(h, t + 1),
                doc,
                h,
                len0,
                p0,
                w0,
            )
        }),
{
    let l = m.elems.len() as int;
    let t = prog[h];
    let item = entry_at(a[h], t as int).1;
    let f2 = f.push(je);
    let a2 = a.insert(l, item);
    let paths2 = paths.insert(l, paths[h].push(members_upto(a[h], t).len() as int));
    let prog2 = prog.insert(l, 0).insert(h, t + 1);
    assert(members_upto(a[h], t + 1) == members_upto(a[h], t).push(entry_at(a[h], t as int)));
    assert forall|k: int| 0 <= k < f2.len() implies (#[trigger] f2[k]).e@ == h + 1 + k by {
        if k < f.len() {
            assert(f2[k] == f[k]);
        } else {
            assert(f2[k] == je);
        }
    }
    assert forall|i: int| 0 <= i < h implies #[trigger] prog2[i] == entry_count(a2[i]) by {
        assert(prog[i] == entry_count(a[i]));
    }
    assert forall|k: int| 0 <= k < m2.elems.len() - len0 implies #[trigger] paths2[len0 + k] == paths2[h].push(k) by {
        if len0 + k < l {
            assert(paths[len0 + k] == paths[h].push(k));
        }
    }
    assert forall|i: int| 0 <= i < len0 implies #[trigger] paths2[i] == p0[i] by {
        assert(paths[i] == p0[i]);
    }
}

/// Filling slot `h` with the metadata of one more member.
proof fn lemma_filling_meta(
    m: ManagerModel,
    f: Seq<JsonElem>,
    a: Map<int, JsonValue>,
    paths: Map<int, Seq<int>>,
    prog: Map<int, nat>,
    doc: JsonValue,
    h: int,
    len0: int,
    p0: Map<int, Seq<int>>,
    w0: nat,
    m2: ManagerModel,
)
    requires
        filling_inv(m, f, a, paths, prog, doc, h, len0, p0, w0),
        prog[h] < entry_count(a[h]),
        a[h] is Object && is_meta_name(entry_at(a[h], prog[h] as int).0),
        m2.elems.len() == m.elems.len(),
    ensures
        filling_inv(m2, f, a, paths, prog.insert(h, prog[h] + 1), doc, h, len0, p0, w0),
{
    let t = prog[h];
    let prog2 = prog.insert(h, t + 1);
    assert(members_upto(a[h], t + 1) == members_upto(a[h], t));
    assert forall|i: int| 0 <= i < h implies #[trigger] prog2[i] == entry_count(a[i]) by {
        assert(prog[i] == entry_count(a[i]));
    }
}

/// Slot `h` filled: the walk has moved past it.
proof fn lemma_filling_done(
    m: ManagerModel,
    f: Seq<JsonElem>,
    a: Map<int, JsonValue>,
    paths: Map<int, Seq<int>>,
    prog: Map<int, nat>,
    doc: JsonValue,
    h: int,
    len0: int,
    p0: Map<int, Seq<int>>,
    w0: nat,
)
    requires
        filling_inv(m, f, a, paths, prog, doc, h, len0, p0, w0),
        loader_inv(m, f, a, paths, prog, doc, h),
        prog[h] == entry_count(a[h]),
        pending_weight(f, a) < w0,
    ensures
        order_inv(m, f, a, paths, prog, doc, h + 1),
{
    let len = m.elems.len() as int;
    assert(slot_inv(m, f, a, paths, prog, doc, h, h));
    assert(paths[h] == p0[h]);
    let cp = child_paths(doc, p0[h]);
    assert(sub_at(doc, p0[h]) == Some(a[h]));
    assert(cp.len() == len - len0);
    assert(slot_paths(paths, h + 1, len) =~= slot_paths(p0, h + 1, len0) + cp) by {
        assert forall|k: int| 0 <= k < len - (h + 1) implies #[trigger] slot_paths(paths, h + 1, len)[k]
            == (slot_paths(p0, h + 1, len0) + cp)[k] by {
            if h + 1 + k < len0 {
                assert(paths[h + 1 + k] == p0[h + 1 + k]);
            } else {
                let kk = h + 1 + k - len0;
                assert(paths[len0 + kk] == paths[h].push(kk));
            }
        }
    }
    assert(slot_paths(paths, 0, h + 1) =~= slot_paths(p0, 0, h + 1)) by {
        assert forall|k: int| 0 <= k < h + 1 implies #[trigger] slot_paths(paths, 0, h + 1)[k] == slot_paths(p0, 0, h + 1)[k] by {
            assert(paths[k] == p0[k]);
        }
    }
    assert forall|i: int| 0 <= i < h + 1 implies #[trigger] prog[i] == entry_count(a[i]) by {}
}

/// With the frontier empty, slot `i` holds position `i` of the loading
/// order, and there are as many slots as positions.
proof fn lemma_order_finished(
    m: ManagerModel,
    a: Map<int, JsonValue>,
    paths: Map<int, Seq<int>>,
    prog: Map<int, nat>,
    doc: JsonValue,
    c: int,
)
    requires
        order_inv(m, Seq::empty(), a, paths, prog, doc, c),
    ensures
        m.elems.len() == load_order(doc).len(),
        forall|i: int| 0 <= i < m.elems.len() ==> paths[i] == load_order(doc)[i],
{
    assert(c == m.elems.len());
    assert(slot_paths(paths, c, c).len() == 0);
    assert(load_order(doc) =~= slot_paths(paths, 0, c));
}

/// A refused member of slot `h` is the first refusal in loading order.
proof fn lemma_filling_error(
    m: ManagerModel,
    f: Seq<JsonElem>,
    a: Map<int, JsonValue>,
    paths: Map<int, Seq<int>>,
    prog: Map<int, nat>,
    doc: JsonValue,
    h: int,
    len0: int,
    p0: Map<int, Seq<int>>,
    w0: nat,
    msg: Seq<char>,
)
    requires
        filling_inv(m, f, a, paths, prog, doc, h, len0, p0, w0),
        loader_inv(m, f, a, paths, prog, doc, h),
        a[h] is Object,
        prog[h] < entry_count(a[h]),
        !entry_valid_at(a[h], prog[h] as int),
        member_error(entry_at(a[h], prog[h] as int).0, entry_at(a[h], prog[h] as int).1, m.elems[h].name, msg),
    ensures
        load_error(doc, msg),
{
    let t = prog[h] as int;
    assert(slot_inv(m, f, a, paths, prog, doc, h, h));
    assert(paths[h] == p0[h]);
    assert(load_order(doc)[h] == p0[h]);
    assert(value_in_order(doc, h) == a[h]);
    assert forall|k2: int| 0 <= k2 < h implies local_valid(#[trigger] value_in_order(doc, k2)) by {
        assert(load_order(doc)[k2] == p0[k2]);
        assert(paths[k2] == p0[k2]);
        assert(slot_inv(m, f, a, paths, prog, doc, h, k2));
        assert(prog[k2] == entry_count(a[k2]));
        assert(value_in_order(doc, k2) == a[k2]);
    }
    assert(entry_at(value_in_order(doc, h), t) == entry_at(a[h], t));
}

/// A decimal numeral is a valid element name and not `Meta`.
proof fn lemma_decimal_name(n: nat)
    ensures
        valid_elem_name(decimal(n)),
        !is_meta_name(decimal(n)),
        decimal(n).len() > 0,
        '0' <= decimal(n)[0] <= '9',
    decreases n,
{
    if n >= 10 {
        lemma_decimal_name(n / 10);
        assert(decimal(n)[0] == decimal(n / 10)[0]);
    }
    reveal_strlit("Meta");
    reveal_strlit("Value");
    assert("Meta"@[0] == 'M');
    assert("Value"@[0] == 'V');
}

/// Splits a JSON value into the element value stored for it and, for a
/// container, its items or members.
fn split_value(v: JsonValue) -> (r: (ElemVal, Option<Vec<JsonValue>>, Option<Vec<(String, JsonValue)>>))
    ensures
        r.0 == elem_value_of(v),
        r.1 == array_part(v),
        r.2 == object_part(v),
{
    match v {
        JsonValue::Null => (ElemVal::Null, None, None),
        JsonValue::Bool(b) => (ElemVal::Bool(b), None, None),
        JsonValue::Number(n) => {
            let ev = match n {
                JsonNumber::PosInt(u) => if u <= i64::MAX as u64 {
                    ElemVal::I64(u as i64)
                } else {
                    ElemVal::U64(u)
                },
                JsonNumber::NegInt(i) => ElemVal::I64(i),
                JsonNumber::Float(bits) => ElemVal::F64(bits),
            };
            (ev, None, None)
        },
        JsonValue::Str(s) => (ElemVal::Str(s), None, None),
        JsonValue::Array(a) => (ElemVal::Array, Some(a), None),
        JsonValue::Object(o) => (ElemVal::Object, None, Some(o)),
    }
}

/// A `Meta` member's value is acceptable: an object whose values are all
/// strings.
pub open spec fn meta_ok(v: JsonValue) -> bool {
    match v {
        JsonValue::Object(ps) => forall|u: int| 0 <= u < ps@.len() ==> (#[trigger] ps@[u]).1 is Str,
        _ => false,
    }
}

/// What loading a document gives: a document that is not an object is
/// refused; an object document loads exactly when every value inside it is
/// acceptable, and then the tree is the document's.
pub open spec fn load_outcome(doc: JsonValue, r: Result<Manager, String>) -> bool {
    &&& !(doc is Object) ==> (r matches Err(msg) && msg@ == "JSON value must be an object."@)
    &&& doc is Object ==> (r is Ok <==> doc_valid(doc))
    &&& doc is Object ==> (r matches Err(msg) ==> load_error(doc, msg@))
    &&& r matches Ok(m) ==> {
        &&& m.wf()
        &&& m@.vacant.len() == 0
        &&& m@.elems[0].name == Seq::<char>::empty()
        &&& m@.elems[0].value == ElemVal::Object
        &&& loaded_from(m@, doc)
    }
}

/// Builds configuration trees from JSON text.
pub struct JsonLoader {}

impl JsonLoader {
    /// Loads member `val` named `name` under `parent`: a `Meta` member's
    /// pairs become metadata of `parent`; any other member becomes a new
    /// child element, queued in `frontier` when it has members of its own.
    fn add_elem(
        frontier: &mut VecDeque<JsonElem>,
        m: &mut Manager,
        parent: ElemHandle,
        val: JsonValue,
        name: String,
    ) -> (r: Result<(), String>)
        requires
            old(m).wf(),
            old(m)@.is_live(parent@ as int),
        ensures
            final(m).wf(),
            is_meta_name(name@) ==> (r is Ok <==> meta_ok(val)),
            !is_meta_name(name@) ==> (r is Ok <==> valid_elem_name(name@)),
            r matches Err(msg) ==> member_error(name@, val, old(m)@.elems[parent@ as int].name, msg@),
            r is Err ==> final(frontier)@ == old(frontier)@,
            is_meta_name(name@) && r is Ok ==> {
                &&& final(m)@ == old(m)@.with_elem(
                    parent@ as int,
                    old(m)@.elems[parent@ as int].with_meta(
                        insert_meta_pairs(old(m)@.elems[parent@ as int].meta, object_part(val).unwrap()@),
                    ),
                )
                &&& final(frontier)@ == old(frontier)@
            },
            is_meta_name(name@) && r is Err && val is Object ==> exists|u: int|
                {
                    &&& first_non_string(object_part(val).unwrap()@, u)
                    &&& final(m)@ == old(m)@.with_elem(
                        parent@ as int,
                        old(m)@.elems[parent@ as int].with_meta(
                            insert_meta_pairs(
                                old(m)@.elems[parent@ as int].meta,
                                object_part(val).unwrap()@.take(u),
                            ),
                        ),
                    )
                },
            is_meta_name(name@) && !(val is Object) ==> final(m)@ == old(m)@,
            !is_meta_name(name@) && r is Err ==> final(m)@ == old(m)@,
            !is_meta_name(name@) && r is Ok ==> {
                &&& final(m)@ == old(m)@.after_create(name@, elem_value_of(val), parent@ as int)
                &&& final(frontier)@.len() == old(frontier)@.len() + 1
                &&& final(frontier)@.drop_last() == old(frontier)@
                &&& final(frontier)@.last().e@ == old(m)@.next_slot()
                &&& final(frontier)@.last().arr_val == array_part(val)
                &&& final(frontier)@.last().obj_val == object_part(val)
            },
    {
        proof {
            reveal_strlit("Meta");
        }
        let ghost gval = val;
        if str_eq(name.as_str(), "Meta") {
            match val {
                JsonValue::Object(o) => {
                    let ghost m0 = m@;
                    let ghost pi = parent@ as int;
                    let mut u: usize = 0;
                    proof {
                        assert(o@.take(0) =~= Seq::<(String, JsonValue)>::empty());
                        assert(m0.with_elem(pi, m0.elems[pi].with_meta(insert_meta_pairs(m0.elems[pi].meta, o@.take(0)))).elems =~= m0.elems);
                    }
                    while u < o.len()
                        invariant
                            is_meta_name(name@),
                            gval == JsonValue::Object(o),
                            gval == val,
                            m0 == old(m)@,
                            m.wf(),
                            u <= o@.len(),
                            frontier@ == old(frontier)@,
                            0 <= pi < m0.elems.len(),
                            pi == parent@ as int,
                            m@ == m0.with_elem(
                                pi,
                                m0.elems[pi].with_meta(insert_meta_pairs(m0.elems[pi].meta, o@.take(u as int))),
                            ),
                            forall|w: int| 0 <= w < u ==> (#[trigger] o@[w]).1 is Str,
                        decreases o@.len() - u,
                    {
                        proof {
                            assert(o@.take(u + 1).drop_last() =~= o@.take(u as int));
                            assert(o@.take(u + 1).last() == o@[u as int]);
                        }
                        match &o[u].1 {
                            JsonValue::Str(sv) => {
                                m.set_meta(parent, o[u].0.as_str(), sv.as_str());
                                proof {
                                    assert(m@.elems =~= m0.with_elem(
                                        pi,
                                        m0.elems[pi].with_meta(insert_meta_pairs(m0.elems[pi].meta, o@.take(u + 1))),
                                    ).elems);
                                }
                            },
                            _ => {
                                proof {
                                    assert(!(o@[u as int].1 is Str));
                                    assert(!meta_ok(gval));
                                    assert(first_non_string(o@, u as int));
                                    assert(m@.elems[pi].name == m0.elems[pi].name);
                                }
                                let mut msg = String::from_str("Meta value '");
                                msg.append(o[u].0.as_str());
                                msg.append("' under '");
                                msg.append(m.name(parent));
                                msg.append("' must have a string value.");
                                proof {
                                    assert(msg@ == meta_value_message(o@[u as int].0@, m0.elems[pi].name));
                                }
                                return Err(msg);
                            },
                        }
                        u = u + 1;
                    }
                    proof {
                        assert(o@.take(u as int) =~= o@);
                    }
                    Ok(())
                },
                _ => {
                    let mut msg = String::from_str("Meta field under '");
                    msg.append(m.name(parent));
                    msg.append("' must be an object.");
                    Err(msg)
                },
            }
        } else {
            let (ev, arr_val, obj_val) = split_value(val);
            let e = match parent.new_child(m, name.as_str(), ev) {
                Ok(e) => e,
                Err(msg) => return Err(msg),
            };
            frontier.push_back(JsonElem { e, arr_val, obj_val });
            Ok(())
        }
    }

    /// Builds a tree from a parsed JSON document, which must be an object.
    /// Its members become the top-level elements, breadth first; array
    /// items are named by their index; a `Meta` member's string pairs become
    /// metadata of the element it sits in.
    pub fn from_json_value(doc: JsonValue) -> (r: Result<Manager, String>)
        ensures
            load_outcome(doc, r),
    {
        let ghost gdoc = doc;
        let obj = match doc {
            JsonValue::Object(o) => o,
            _ => {
                let msg = String::from_str("JSON value must be an object.");
                return Err(msg);
            },
        };
        let mut m = Manager::new();
        let mut frontier: VecDeque<JsonElem> = VecDeque::new();
        let root = m.root();
        frontier.push_back(JsonElem { e: root, arr_val: None, obj_val: Some(obj) });
        let ghost mut a = Map::<int, JsonValue>::empty().insert(0, gdoc);
        let ghost mut paths = Map::<int, Seq<int>>::empty().insert(0, Seq::<int>::empty());
        let ghost mut prog = Map::<int, nat>::empty().insert(0, 0nat);
        proof {
            reveal_strlit("");
            let mm = m@;
            assert(mm.elems.len() == 1);
            assert(slot_inv(mm, frontier@, a, paths, prog, gdoc, -1, 0)) by {
                assert(sub_at(gdoc, Seq::<int>::empty()) == Some(gdoc));
                assert(frontier@[0].e@ == 0);
            }
            assert(pending_ok(mm, a, prog, -1, frontier@[0]));
            let f = frontier@;
            assert(f.drop_first() =~= Seq::<JsonElem>::empty());
            assert(pending_weight(f.drop_first(), a) == 0);
            assert(pending_weight(f, a) == json_size(gdoc));
            assert(slot_paths(paths, 0, 1) =~= seq![Seq::<int>::empty()]);
            assert(slot_paths(paths, 0, 0) =~= Seq::<Seq<int>>::empty());
            assert(load_order(gdoc) =~= slot_paths(paths, 0, 0) + json_bfs(gdoc, slot_paths(paths, 0, 1), json_size(gdoc)));
            assert(order_inv(mm, f, a, paths, prog, gdoc, 0));
        }
        let ghost mut c: int = 0;
        while frontier.len() > 0
            invariant
                loader_inv(m@, frontier@, a, paths, prog, gdoc, -1),
                order_inv(m@, frontier@, a, paths, prog, gdoc, c),
                gdoc is Object,
                gdoc == doc,
            decreases pending_weight(frontier@, a),
        {
            let ghost w0 = pending_weight(frontier@, a);
            let ghost f0 = frontier@;
            let ghost len0 = m@.elems.len() as int;
            let ghost p0 = paths;
            let elem = frontier.pop_front().unwrap();
            let ghost h = elem.e@ as int;
            proof {
                assert(elem == f0[0]);
                assert(frontier@ == f0.drop_first());
                lemma_order_pop(m@, f0, a, paths, prog, gdoc, c);
                lemma_loader_pop(m@, f0, a, paths, prog, gdoc);
                assert(w0 == json_size(a[h]) + pending_weight(frontier@, a));
                assert(entries_size(a[h], 0) < json_size(a[h]));
            }
            let JsonElem { e, arr_val, obj_val } = elem;
            match arr_val {
                Some(items) => {
                    let ghost orig = items;
                    let mut items = items;
                    let n = items.len();
                    let mut i: usize = 0;
                    proof {
                        assert(items@.skip(0) =~= items@);
                    }
                    while i < n
                        invariant
                            loader_inv(m@, frontier@, a, paths, prog, gdoc, h),
                            0 <= h < m@.elems.len(),
                            e@ == h,
                            a[h] == JsonValue::Array(orig),
                            prog[h] == i,
                            n == orig@.len(),
                            i <= n,
                            items@ == orig@.skip(i as int),
                            pending_weight(frontier@, a) + entries_size(a[h], prog[h]) < w0,
                            filling_inv(m@, frontier@, a, paths, prog, gdoc, h, len0, p0, w0),
                            gdoc is Object,
                            gdoc == doc,
                        decreases n - i,
                    {
                        let ghost mb = m@;
                        let ghost fb = frontier@;
                        let item = items.remove(0);
                        let name = decimal_string(i);
                        proof {
                            assert(item == orig@[i as int]);
                            assert(items@ =~= orig@.skip(i + 1));
                            lemma_decimal_name(i as nat);
                            assert(slot_inv(mb, fb, a, paths, prog, gdoc, h, h));
                            assert(mb.is_live(h));
                        }
                        match Self::add_elem(&mut frontier, &mut m, e, item, name) {
                            Ok(()) => {},
                            Err(msg) => {
                                return Err(msg);
                            },
                        }
                        proof {
                            let t = prog[h];
                            let l = mb.elems.len() as int;
                            let je = frontier@.last();
                            assert(entry_at(a[h], t as int) == (decimal(i as nat), item));
                            lemma_loader_member(mb, fb, a, paths, prog, gdoc, h, m@, je);
                            assert(mb.next_slot() == l);
                            lemma_filling_member(mb, fb, a, paths, prog, gdoc, h, len0, p0, w0, m@, je);
                            assert(frontier@ =~= fb.push(je));
                            let a2 = a.insert(l, item);
                            lemma_weight_frame(fb, a, a2);
                            lemma_weight_push(fb, a2, je);
                            assert(a2[h] == a[h]);
                            paths = paths.insert(l, paths[h].push(members_upto(a[h], t).len() as int));
                            prog = prog.insert(l, 0).insert(h, t + 1);
                            a = a2;
                        }
                        i = i + 1;
                    }
                    proof {
                        lemma_filling_done(m@, frontier@, a, paths, prog, gdoc, h, len0, p0, w0);
                        lemma_loader_done_slot(m@, frontier@, a, paths, prog, gdoc, h);
                        c = h + 1;
                    }
                },
                None => match obj_val {
                    Some(members) => {
                        let ghost orig = members;
                        let mut members = members;
                        let n = members.len();
                        let mut i: usize = 0;
                        proof {
                            assert(members@.skip(0) =~= members@);
                        }
                        while i < n
                            invariant
                                loader_inv(m@, frontier@, a, paths, prog, gdoc, h),
                                0 <= h < m@.elems.len(),
                                e@ == h,
                                a[h] == JsonValue::Object(orig),
                                prog[h] == i,
                                n == orig@.len(),
                                i <= n,
                                members@ == orig@.skip(i as int),
                                pending_weight(frontier@, a) + entries_size(a[h], prog[h]) < w0,
                                filling_inv(m@, frontier@, a, paths, prog, gdoc, h, len0, p0, w0),
                                gdoc is Object,
                                gdoc == doc,
                            decreases n - i,
                        {
                            let ghost mb = m@;
                            let ghost fb = frontier@;
                            let (name, item) = members.remove(0);
                            proof {
                                assert((name, item) == orig@[i as int]);
                                assert(members@ =~= orig@.skip(i + 1));
                                assert(slot_inv(mb, fb, a, paths, prog, gdoc, h, h));
                                assert(mb.is_live(h));
                                assert(entry_at(a[h], i as int) == (name@, item));
                            }
                            let ghost gname = name@;
                            match Self::add_elem(&mut frontier, &mut m, e, item, name) {
                                Ok(()) => {},
                                Err(msg) => {
                                    proof {
                                        lemma_loader_rejects(mb, fb, a, paths, prog, gdoc, h);
                                        let p = paths[h];
                                        assert(sub_at(gdoc, p) == Some(a[h]));
                                        assert(entry_at(sub_at(gdoc, p).unwrap(), i as int) == (gname, item));
                                        lemma_filling_error(mb, fb, a, paths, prog, gdoc, h, len0, p0, w0, msg@);
                                    }
                                    return Err(msg);
                                },
                            }
                            proof {
                                let t = prog[h];
                                if is_meta_name(gname) {
                                    lemma_loader_meta(mb, fb, a, paths, prog, gdoc, h, object_part(item).unwrap(), m@);
                                    assert(m@.elems.len() == mb.elems.len());
                                    lemma_filling_meta(mb, fb, a, paths, prog, gdoc, h, len0, p0, w0, m@);
                                    prog = prog.insert(h, t + 1);
                                } else {
                                    let l = mb.elems.len() as int;
                                    let je = frontier@.last();
                                    lemma_loader_member(mb, fb, a, paths, prog, gdoc, h, m@, je);
                                    assert(mb.next_slot() == l);
                                    lemma_filling_member(mb, fb, a, paths, prog, gdoc, h, len0, p0, w0, m@, je);
                                    assert(frontier@ =~= fb.push(je));
                                    let a2 = a.insert(l, item);
                                    lemma_weight_frame(fb, a, a2);
                                    lemma_weight_push(fb, a2, je);
                                    assert(a2[h] == a[h]);
                                    paths = paths.insert(l, paths[h].push(members_upto(a[h], t).len() as int));
                                    prog = prog.insert(l, 0).insert(h, t + 1);
                                    a = a2;
                                }
                            }
                            i = i + 1;
                        }
                        proof {
                            lemma_filling_done(m@, frontier@, a, paths, prog, gdoc, h, len0, p0, w0);
                            lemma_loader_done_slot(m@, frontier@, a, paths, prog, gdoc, h);
                            c = h + 1;
                        }
                    },
                    None => {
                        proof {
                            assert(pending_ok(m@, a, prog, -1, f0[0]));
                            assert(entry_count(a[h]) == 0);
                            lemma_filling_done(m@, frontier@, a, paths, prog, gdoc, h, len0, p0, w0);
                            lemma_loader_done_slot(m@, frontier@, a, paths, prog, gdoc, h);
                            c = h + 1;
                        }
                    },
                },
            }
        }
        proof {
            assert(frontier@ =~= Seq::<JsonElem>::empty());
            lemma_order_finished(m@, a, paths, prog, gdoc, c);
            lemma_loader_finished(m@, a, paths, prog, gdoc);
        }
        Ok(m)
    }

    /// Parses `json` and builds its tree; a parse error is returned as the
    /// parser's message.
    pub fn from_json(json: &str) -> (r: Result<Manager, String>)
        ensures
            match parsed_json(json@) {
                Err(msg) => r matches Err(e) && e@ == msg,
                Ok(doc) => load_outcome(doc, r),
            },
    {
        let v = match parse_json(json) {
            Ok(v) => v,
            Err(e) => return Err(e),
        };
        Self::from_json_value(v)
    }
}

/// The value an element loaded from a JSON value holds: `null` gives
/// `Null`, a boolean the same boolean, a string the same string, an integer
/// `I64` when it fits and `U64` otherwise, a float its `F64` bits, and an
/// array or object `Array` or `Object`.
pub proof fn lemma_loaded_values(b: bool, s: String, u: u64, i: i64, bits: u64, a: Vec<JsonValue>, o: Vec<(String, JsonValue)>)
    ensures
        elem_value_of(JsonValue::Null) == ElemVal::Null,
        elem_value_of(JsonValue::Bool(b)) == ElemVal::Bool(b),
        elem_value_of(JsonValue::Str(s)) == ElemVal::Str(s),
        u <= i64::MAX ==> elem_value_of(JsonValue::Number(JsonNumber::PosInt(u))) == ElemVal::I64(u as i64),
        u > i64::MAX ==> elem_value_of(JsonValue::Number(JsonNumber::PosInt(u))) == ElemVal::U64(u),
        elem_value_of(JsonValue::Number(JsonNumber::NegInt(i))) == ElemVal::I64(i),
        elem_value_of(JsonValue::Number(JsonNumber::Float(bits))) == ElemVal::F64(bits),
        elem_value_of(JsonValue::Array(a)) == ElemVal::Array,
        elem_value_of(JsonValue::Object(o)) == ElemVal::Object,
{
}

} // verus!
