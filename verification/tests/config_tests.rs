use volatus::config::{ElemLookup, ElemVal, JsonLoader, Manager};

#[test]
fn empty_element_name_fails() {
    let mut m = Manager::new();
    assert!(m.create("", ElemVal::Null, None).is_err());
}

#[test]
fn reserved_element_name_fails() {
    let mut m = Manager::new();
    assert!(m.create("Meta", ElemVal::Null, None).is_err());
    assert!(m.create("Value", ElemVal::Null, None).is_err());
}

#[test]
fn reserved_rename_fails() {
    let mut m = Manager::new();
    let e = m.create("alpha", ElemVal::Null, None).unwrap();
    assert!(m.rename(e, "Meta").is_err());
}

#[test]
fn rename_element() {
    let mut m = Manager::new();
    let e = m.create("alpha", ElemVal::Null, None).unwrap();
    m.rename(e, "beta").unwrap();
    assert_eq!(m.name(e), "beta");
}

#[test]
fn create_element() {
    let mut m = Manager::new();
    let e = m
        .create("alpha", ElemVal::Str(String::from("Meowdy")), None)
        .unwrap();
    assert_eq!(m.name(e), "alpha");
}

#[test]
fn create_child_get_hierarchy() {
    let mut m = Manager::new();
    let parent = m.create("parent", ElemVal::I32(42), None).unwrap();
    let child = m
        .create("child", ElemVal::Bool(true), Some(parent))
        .unwrap();

    assert_eq!(m.hierarchy(child), vec!["parent", "child"]);
}

#[test]
fn traverse_to_parent() {
    let mut m = Manager::new();
    let p = m.create("parent", ElemVal::Null, None).unwrap();
    let c = m.create("child", ElemVal::Null, Some(p)).unwrap();

    let tp = m.parent(c).unwrap();
    assert_eq!(m.name(tp), "parent");
}

#[test]
fn lookup_hierarchy() {
    let mut m = Manager::new();
    let p = m.create("parent", ElemVal::Null, None).unwrap();
    let _c = m.create("child", ElemVal::I32(42), Some(p)).unwrap();

    let e = m.lookup(&vec!["parent", "child"]).unwrap();
    assert_eq!(*m.value(e), ElemVal::I32(42));
}

#[test]
fn change_value() {
    let mut m = Manager::new();
    let e = m.create("alpha", ElemVal::Null, None).unwrap();
    *m.value_mut(e) = ElemVal::Bool(true);
    assert_eq!(*m.value(e), ElemVal::Bool(true));
}

#[test]
fn create_via_obtain() {
    let mut m = Manager::new();
    let _ = m.create("alpha", ElemVal::Null, None).unwrap();
    let e = m.obtain(&vec!["alpha", "beta", "gamma"]).unwrap();
    assert_eq!(m.hierarchy(e), vec!["alpha", "beta", "gamma"]);
    assert_eq!(m.len(), 3);
}

#[test]
fn remove_subtree() {
    let mut m = Manager::new();
    let a = m.create("a", ElemVal::Null, None).unwrap();
    let b = m.create("b", ElemVal::Null, Some(a)).unwrap();
    let c = m.create("c", ElemVal::Null, Some(a)).unwrap();
    let d = m.create("d", ElemVal::Null, Some(c)).unwrap();

    m.remove(c).unwrap();

    assert_eq!(m.len(), 2);
    assert_eq!(m.hierarchy(b), vec!["a", "b"]);
    assert!(m.is_vacant(d));
}

#[test]
fn set_get_meta() {
    let mut m = Manager::new();
    let e = m.create("a", ElemVal::Null, None).unwrap();
    m.set_meta(e, "VL_Type", "VL_Task");

    assert!(m.has_meta(e, "VL_Type"));
    assert_eq!(m.get_meta(e, "VL_Type").unwrap(), "VL_Task");
}

#[test]
fn get_missing_meta() {
    let mut m = Manager::new();
    let e = m.create("a", ElemVal::Null, None).unwrap();

    assert!(!m.has_meta(e, "VL_Type"));
    assert!(m.get_meta(e, "VL_Type").is_none());
}

#[test]
fn match_meta_name() {
    let mut m = Manager::new();
    let e = m.create("a", ElemVal::Null, None).unwrap();
    let l = ElemLookup::new().match_name("a");

    assert!(l.matches(m.elem(e)));
}

#[test]
fn descendent_meta() {
    let mut m = Manager::new();
    let a = m.create("a", ElemVal::Null, None).unwrap();
    let b = a.new_child(&mut m, "b", ElemVal::Null).unwrap();
    let c = b.new_child(&mut m, "c", ElemVal::Null).unwrap();
    let d = c.new_child(&mut m, "d", ElemVal::Null).unwrap();

    m.set_meta(a, "VL_Type", "VL_Task");
    m.set_meta(b, "VL_Type", "VL_Channel");
    m.set_meta(c, "VL_Type", "VL_Group");
    m.set_meta(d, "VL_Type", "VL_Channel");

    let l = ElemLookup::new().match_meta("VL_Type", "VL_Channel");

    let chans = m.descendents(a, &l, true);

    assert_eq!(chans.len(), 2);

    let names: Vec<&str> = chans.iter().map(|e| m.name(*e)).collect();
    assert!(names.contains(&m.name(b)));
    assert!(names.contains(&m.name(d)));
}

#[test]
fn basic_parse_json() {
    let json = r#"
{
    "Volatus": {
        "Meta": {"VL_Config_Version": "0.0.0-dev"},
        "TestSystem": {
            "Meta": {"VL_Type": "VL_System"},
            "Clusters": {
                "TestCluster": {
                    "Meta": {"VL_Type": "VL_Cluster"},
                    "Telemetry": {"Routing": "Unicast", "Endpoint": {"Address": "127.0.0.1", "Port": 36985} },
                    "Groups": {"Events": 5, "Config": 6, "Logging": 7, "Clients": 8},
                    "Nodes": {
                        "Test_DAQ": {
                            "Meta": {"VL_Type": "VL_Node"},
                            "Node_ID": 1,
                            "Network": {
                                "Bind_Address": "0.0.0.0",
                                "TCP": {"Address": "127.0.0.1", "Port": 12081, "Server": true},
                                "HTTP_Port": 13081
                            },
                            "Tasks": {
                                "Telem_Server": {"Meta": {"VL_Type": "VL_Task", "VL_Task_Type": "TelemetryServer"}}
                            }
                        },
                        "Test_GUI": {
                            "Meta": {"VL_Type": "VL_Node"},
                            "Node_ID": 2,
                            "Network": {
                                "Bind_Address": "0.0.0.0",
                                "TCP": {"Address": "127.0.0.1", "Port": 12081, "Server": false},
                                "HTTP_Port": 13081
                            },
                            "Tasks": {
                                "GUI_Manager": {
                                    "Meta": {"VL_Type": "VL_Task", "VL_Task_Type": "GUIManager"},
                                    "Plugins": "gui",
                                    "Title": "Volatus Test"
                                }
                            }
                        }
                    }
                }
            }
        }
    }
}"#;

    let m = JsonLoader::from_json(json).unwrap();
    println!("{m:#?}");
}
