use volatus::config::{
    validate_elem_name, ElemHandle, ElemLookup, ElemVal, JsonLoader, JsonNumber, JsonValue, Manager, MetaTable,
};

fn handle_text(h: ElemHandle) -> String {
    h.debug_text()
}

#[test]
fn invalid_name_message_is_exact() {
    let err = validate_elem_name("Value").unwrap_err();
    assert_eq!(
        err,
        "Element name 'Value' cannot be empty or the reserved strings 'Meta' or 'Value'."
    );
    assert!(validate_elem_name("Metadata").is_ok());
    assert!(validate_elem_name("").is_err());
}

#[test]
fn failed_create_changes_nothing() {
    let mut m = Manager::new();
    let a = m.create("a", ElemVal::Null, None).unwrap();
    assert!(m.create("", ElemVal::Null, Some(a)).is_err());
    assert_eq!(m.len(), 1);
    assert_eq!(m.children(a).len(), 0);
}

#[test]
fn removed_slot_is_reused_by_next_create() {
    let mut m = Manager::new();
    let a = m.create("a", ElemVal::Null, None).unwrap();
    let c = m.create("c", ElemVal::Null, Some(a)).unwrap();
    let d = m.create("d", ElemVal::Null, Some(c)).unwrap();
    m.remove(c).unwrap();
    assert_eq!(m.len(), 1);
    assert!(m.is_vacant(c));
    assert!(m.is_vacant(d));
    assert_eq!(m.children(a).len(), 0);
    // the slot freed last (d, removed after c) is handed out first
    let x = m.create("x", ElemVal::Bool(false), None).unwrap();
    assert_eq!(handle_text(x), handle_text(d));
    assert_eq!(m.name(x), "x");
    assert!(!m.is_vacant(x));
    assert!(m.parent(x).is_none());
    assert_eq!(m.len(), 2);
    let y = m.create("y", ElemVal::Null, Some(x)).unwrap();
    assert_eq!(handle_text(y), handle_text(c));
    assert_eq!(m.hierarchy(y), vec!["x", "y"]);
}

#[test]
fn len_counts_elements() {
    let mut m = Manager::new();
    assert_eq!(m.len(), 0);
    let a = m.create("a", ElemVal::Null, None).unwrap();
    let b = m.create("b", ElemVal::Null, Some(a)).unwrap();
    let _c = m.create("c", ElemVal::Null, Some(b)).unwrap();
    let _d = m.create("d", ElemVal::Null, None).unwrap();
    assert_eq!(m.len(), 4);
    m.remove(b).unwrap();
    assert_eq!(m.len(), 2);
}

#[test]
fn obtain_existing_path_changes_nothing() {
    let mut m = Manager::new();
    let e = m.obtain(&vec!["a", "b"]).unwrap();
    assert_eq!(m.len(), 2);
    let again = m.obtain(&vec!["a", "b"]).unwrap();
    assert_eq!(handle_text(e), handle_text(again));
    assert_eq!(m.len(), 2);
    let found = m.lookup(&vec!["a", "b"]).unwrap();
    assert_eq!(handle_text(found), handle_text(e));
    assert_eq!(*m.value(e), ElemVal::Null);
}

#[test]
fn obtain_stops_at_invalid_name() {
    let mut m = Manager::new();
    let err = m.obtain(&vec!["a", "Value", "c"]).unwrap_err();
    assert_eq!(
        err,
        "Element name 'Value' cannot be empty or the reserved strings 'Meta' or 'Value'."
    );
    assert_eq!(m.len(), 1);
    assert!(m.lookup(&vec!["a"]).is_some());
    assert!(m.lookup(&vec!["a", "Value"]).is_none());
}

#[test]
fn lookup_takes_first_child_with_name() {
    let mut m = Manager::new();
    let a = m.create("a", ElemVal::Null, None).unwrap();
    let first = m.create("dup", ElemVal::I32(1), Some(a)).unwrap();
    let _second = m.create("dup", ElemVal::I32(2), Some(a)).unwrap();
    let found = m.lookup_child(a, "dup").unwrap();
    assert_eq!(handle_text(found), handle_text(first));
    assert_eq!(*m.value(m.lookup(&vec!["a", "dup"]).unwrap()), ElemVal::I32(1));
    assert!(m.lookup_child(a, "none").is_none());
    assert!(m.lookup(&vec![]).is_some());
}

#[test]
fn rename_then_lookup() {
    let mut m = Manager::new();
    let a = m.create("a", ElemVal::Null, None).unwrap();
    m.rename(a, "z").unwrap();
    assert!(m.lookup(&vec!["a"]).is_none());
    assert_eq!(handle_text(m.lookup(&vec!["z"]).unwrap()), handle_text(a));
    assert!(m.rename(a, "").is_err());
    assert_eq!(m.name(a), "z");
}

#[test]
fn meta_read_after_write() {
    let mut m = Manager::new();
    let e = m.create("a", ElemVal::Null, None).unwrap();
    m.set_meta(e, "k", "1");
    m.set_meta(e, "j", "2");
    m.set_meta(e, "k", "3");
    assert_eq!(m.get_meta(e, "k").unwrap(), "3");
    assert_eq!(m.get_meta(e, "j").unwrap(), "2");
    let mut t = MetaTable::new();
    assert!(!t.contains("x"));
    t.insert("x", "1");
    t.insert("x", "2");
    assert_eq!(t.get("x").unwrap(), "2");
}

#[test]
fn lookup_tests() {
    let mut m = Manager::new();
    let e = m.create("a", ElemVal::Null, None).unwrap();
    m.set_meta(e, "kind", "task");
    assert!(ElemLookup::new().matches(m.elem(e)));
    assert!(ElemLookup::new().match_has_meta("kind").matches(m.elem(e)));
    assert!(!ElemLookup::new().match_has_meta("other").matches(m.elem(e)));
    assert!(ElemLookup::new().match_meta("kind", "task").matches(m.elem(e)));
    assert!(!ElemLookup::new().match_meta("kind", "node").matches(m.elem(e)));
    // metadata that is absent does not make a value test fail
    assert!(ElemLookup::new().match_meta("missing", "x").matches(m.elem(e)));
    assert!(!ElemLookup::new().match_name("a").match_name("b").matches(m.elem(e)));
}

#[test]
fn descendents_stop_at_match_unless_asked() {
    let mut m = Manager::new();
    let a = m.create("a", ElemVal::Null, None).unwrap();
    let b = m.create("b", ElemVal::Null, Some(a)).unwrap();
    let c = m.create("c", ElemVal::Null, Some(b)).unwrap();
    let _ = m.create("d", ElemVal::Null, Some(a)).unwrap();
    m.set_meta(b, "t", "x");
    m.set_meta(c, "t", "x");
    let l = ElemLookup::new().match_has_meta("t");
    let shallow = m.descendents(a, &l, false);
    assert_eq!(shallow.len(), 1);
    assert_eq!(handle_text(shallow[0]), handle_text(b));
    let deep = m.descendents(a, &l, true);
    assert_eq!(deep.len(), 2);
    let all = m.descendents(m.root(), &ElemLookup::new(), true);
    assert_eq!(all.len(), 4);
}

#[test]
fn ancestor_finds_nearest_match() {
    let mut m = Manager::new();
    let a = m.create("a", ElemVal::Null, None).unwrap();
    let b = m.create("b", ElemVal::Null, Some(a)).unwrap();
    let c = m.create("c", ElemVal::Null, Some(b)).unwrap();
    m.set_meta(a, "t", "x");
    m.set_meta(b, "t", "x");
    let l = ElemLookup::new().match_has_meta("t");
    assert_eq!(handle_text(m.ancestor(c, &l).unwrap()), handle_text(b));
    assert_eq!(handle_text(m.ancestor(b, &l).unwrap()), handle_text(a));
    assert!(m.ancestor(a, &l).is_none());
    assert!(m.ancestor(c, &ElemLookup::new().match_name("zz")).is_none());
}

#[test]
fn value_change_leaves_others() {
    let mut m = Manager::new();
    let a = m.create("a", ElemVal::U8(1), None).unwrap();
    let b = m.create("b", ElemVal::I8(-1), None).unwrap();
    *m.value_mut(a) = ElemVal::U16(7);
    assert_eq!(*m.value(a), ElemVal::U16(7));
    assert_eq!(*m.value(b), ElemVal::I8(-1));
}

#[test]
fn children_in_creation_order() {
    let mut m = Manager::new();
    let a = m.create("a", ElemVal::Null, None).unwrap();
    let x = m.create("x", ElemVal::Null, Some(a)).unwrap();
    let y = m.create("y", ElemVal::Null, Some(a)).unwrap();
    let cs = m.children(a);
    assert_eq!(cs.len(), 2);
    assert_eq!(handle_text(cs[0]), handle_text(x));
    assert_eq!(handle_text(cs[1]), handle_text(y));
    m.children_mut(a).pop();
    assert_eq!(m.children(a).len(), 1);
    assert_eq!(m.children(m.root()).len(), 1);
}

#[test]
fn json_document_must_be_object() {
    let err = JsonLoader::from_json("[1, 2]").unwrap_err();
    assert_eq!(err, "JSON value must be an object.");
    assert!(JsonLoader::from_json("{\"a\": ").is_err());
    assert!(JsonLoader::from_json_value(JsonValue::Null).is_err());
}

#[test]
fn json_values_and_names() {
    let m = JsonLoader::from_json(
        r#"{"n": null, "t": true, "i": -3, "u": 5, "big": 18446744073709551615, "f": 1.5, "s": "hi", "arr": [10, {"k": "v"}]}"#,
    )
    .unwrap();
    assert_eq!(m.len(), 11);
    assert_eq!(*m.value(m.lookup(&vec!["n"]).unwrap()), ElemVal::Null);
    assert_eq!(*m.value(m.lookup(&vec!["t"]).unwrap()), ElemVal::Bool(true));
    assert_eq!(*m.value(m.lookup(&vec!["i"]).unwrap()), ElemVal::I64(-3));
    assert_eq!(*m.value(m.lookup(&vec!["u"]).unwrap()), ElemVal::I64(5));
    assert_eq!(*m.value(m.lookup(&vec!["big"]).unwrap()), ElemVal::U64(u64::MAX));
    assert_eq!(*m.value(m.lookup(&vec!["f"]).unwrap()), ElemVal::F64(1.5f64.to_bits()));
    assert_eq!(*m.value(m.lookup(&vec!["s"]).unwrap()), ElemVal::Str("hi".to_owned()));
    assert_eq!(*m.value(m.lookup(&vec!["arr"]).unwrap()), ElemVal::Array);
    assert_eq!(*m.value(m.lookup(&vec!["arr", "0"]).unwrap()), ElemVal::I64(10));
    assert_eq!(*m.value(m.lookup(&vec!["arr", "1"]).unwrap()), ElemVal::Object);
    let k = m.lookup(&vec!["arr", "1", "k"]).unwrap();
    assert_eq!(*m.value(k), ElemVal::Str("v".to_owned()));
    assert_eq!(m.hierarchy(k), vec!["arr", "1", "k"]);
}

#[test]
fn json_meta_becomes_metadata() {
    let m = JsonLoader::from_json(r#"{"Meta": {"v": "1"}, "a": {"Meta": {"t": "x", "u": "y"}, "b": 2}}"#).unwrap();
    assert_eq!(m.get_meta(m.root(), "v").unwrap(), "1");
    let a = m.lookup(&vec!["a"]).unwrap();
    assert_eq!(m.get_meta(a, "t").unwrap(), "x");
    assert_eq!(m.get_meta(a, "u").unwrap(), "y");
    assert_eq!(m.len(), 2);
    assert!(m.lookup(&vec!["a", "Meta"]).is_none());
}

#[test]
fn json_rejects_bad_meta_and_names() {
    let err = JsonLoader::from_json(r#"{"a": {"Meta": 5}}"#).unwrap_err();
    assert_eq!(err, "Meta field under 'a' must be an object.");
    let err = JsonLoader::from_json(r#"{"a": {"Meta": {"k": 1}}}"#).unwrap_err();
    assert_eq!(err, "Meta value 'k' under 'a' must have a string value.");
    let err = JsonLoader::from_json(r#"{"a": {"Value": 1}}"#).unwrap_err();
    assert_eq!(
        err,
        "Element name 'Value' cannot be empty or the reserved strings 'Meta' or 'Value'."
    );
    assert!(JsonLoader::from_json(r#"{"": 1}"#).is_err());
}

#[test]
fn json_value_loader_takes_parsed_document() {
    let doc = JsonValue::Object(vec![
        ("x".to_owned(), JsonValue::Number(JsonNumber::NegInt(-1))),
        ("y".to_owned(), JsonValue::Array(vec![JsonValue::Bool(false)])),
    ]);
    let m = JsonLoader::from_json_value(doc).unwrap();
    assert_eq!(m.len(), 3);
    assert_eq!(*m.value(m.lookup(&vec!["x"]).unwrap()), ElemVal::I64(-1));
    assert_eq!(*m.value(m.lookup(&vec!["y", "0"]).unwrap()), ElemVal::Bool(false));
}

#[test]
fn json_loads_breadth_first() {
    let doc = JsonValue::Object(vec![
        ("a".to_owned(), JsonValue::Object(vec![("x".to_owned(), JsonValue::Bool(true))])),
        ("b".to_owned(), JsonValue::Null),
    ]);
    let m = JsonLoader::from_json_value(doc).unwrap();
    assert_eq!(handle_text(m.lookup(&vec!["a"]).unwrap()), "1");
    assert_eq!(handle_text(m.lookup(&vec!["b"]).unwrap()), "2");
    assert_eq!(handle_text(m.lookup(&vec!["a", "x"]).unwrap()), "3");
}

#[test]
fn json_reports_first_refusal_in_loading_order() {
    let doc = JsonValue::Object(vec![
        (
            "a".to_owned(),
            JsonValue::Object(vec![(
                "b".to_owned(),
                JsonValue::Object(vec![("Value".to_owned(), JsonValue::Null)]),
            )]),
        ),
        ("c".to_owned(), JsonValue::Object(vec![("Meta".to_owned(), JsonValue::Bool(false))])),
    ]);
    let err = JsonLoader::from_json_value(doc).unwrap_err();
    assert_eq!(err, "Meta field under 'c' must be an object.");
}

#[test]
fn lookup_of_hierarchy_finds_element() {
    let mut m = Manager::new();
    let a = m.create("a", ElemVal::Null, None).unwrap();
    let b = m.create("b", ElemVal::Null, Some(a)).unwrap();
    let c = m.create("c", ElemVal::I8(-1), Some(b)).unwrap();
    let h = m.hierarchy(c);
    let names: Vec<&str> = h.iter().map(|s| s.as_str()).collect();
    let found = m.lookup(&names).unwrap();
    assert_eq!(handle_text(found), handle_text(c));
    // With an earlier sibling of the same name, the lookup takes that one.
    let a2 = m.create("a", ElemVal::Null, None).unwrap();
    let x = m.create("x", ElemVal::Null, Some(a2)).unwrap();
    let h = m.hierarchy(x);
    let names: Vec<&str> = h.iter().map(|s| s.as_str()).collect();
    assert!(m.lookup(&names).is_none());
}

#[test]
fn handle_shows_its_slot() {
    let mut m = Manager::new();
    assert_eq!(m.root().debug_text(), "0");
    let mut last = m.root();
    for i in 0..12 {
        last = m.create(&format!("e{i}"), ElemVal::Null, None).unwrap();
    }
    assert_eq!(last.debug_text(), "12");
}

#[test]
fn len_matches_elements_reached_from_root() {
    let mut m = Manager::new();
    let a = m.create("a", ElemVal::Null, None).unwrap();
    let b = m.create("b", ElemVal::Null, Some(a)).unwrap();
    let _c = m.create("c", ElemVal::Null, Some(b)).unwrap();
    let _d = m.create("d", ElemVal::U16(4), None).unwrap();
    m.remove(b).unwrap();
    let all = m.descendents(m.root(), &ElemLookup::new(), true);
    assert_eq!(all.len(), m.len());
    assert_eq!(m.len(), 2);
}

#[test]
fn hierarchy_is_parent_hierarchy_then_name() {
    let mut m = Manager::new();
    let a = m.create("a", ElemVal::Null, None).unwrap();
    let b = m.create("b", ElemVal::Null, Some(a)).unwrap();
    let c = m.create("c", ElemVal::Null, Some(b)).unwrap();
    let mut expected = m.hierarchy(b);
    expected.push("c".to_owned());
    assert_eq!(m.hierarchy(c), expected);
    assert_eq!(m.hierarchy(a), vec!["a"]);
    assert_eq!(m.hierarchy(m.root()), vec![""]);
}

#[test]
fn element_debug_text() {
    let mut m = Manager::new();
    assert_eq!(m.elem(m.root()).debug_text("Object"), "");
    let p = m.create("alpha", ElemVal::I32(42), None).unwrap();
    let c1 = p.new_child(&mut m, "beta", ElemVal::Bool(true)).unwrap();
    let l = c1.new_child(&mut m, "gamma", ElemVal::Null).unwrap();
    let _c2 = p.new_child(&mut m, "de\"lta", ElemVal::Bool(false)).unwrap();
    m.remove(l).unwrap();
    assert_eq!(m.elem(m.root()).debug_text("Object"), " { children: [1] }");
    assert_eq!(
        m.elem(p).debug_text("I32(42)"),
        " { name: \"alpha\", value: I32(42), children: [2, 4] }"
    );
    assert_eq!(m.elem(c1).debug_text("Bool(true)"), " { name: \"beta\", value: Bool(true), parent: 1 }");
    assert_eq!(m.elem(l).debug_text("None"), "VACANT");
    assert_eq!(
        m.elem(_c2).debug_text("Bool(false)"),
        " { name: \"de\\\"lta\", value: Bool(false), parent: 1 }"
    );
}
