use canvibe::store::ApiError;
use canvibe::store::Store;
use canvibe::value::Value;

#[test]
fn append_events_distinct_ids() {
    let mut store = Store::new();
    let mut ids: Vec<String> = Vec::new();
    for i in 0..5 {
        let e = store.append_event(format!("type{}", i), Value::Null);
        assert!(!e.id.is_empty());
        ids.push(e.id);
    }
    let all = store.list_events(None);
    assert_eq!(all.len(), 5);
    for i in 0..ids.len() {
        for j in 0..ids.len() {
            if i != j {
                assert_ne!(ids[i], ids[j]);
            }
        }
    }
}

#[test]
fn get_event_returns_appended_record() {
    let mut store = Store::new();
    let e = store.append_event(
        "created".to_string(),
        Value::Obj(vec![("k".to_string(), Value::Num("1".to_string()))]),
    );
    let got = store.get_event(&e.id).unwrap();
    assert_eq!(got, e);
    assert_eq!(got.event_type, "created".to_string());
}

#[test]
fn list_events_filters_by_type_in_order() {
    let mut store = Store::new();
    let e1 = store.append_event("a".to_string(), Value::Null);
    let _e2 = store.append_event("b".to_string(), Value::Null);
    let e3 = store.append_event("a".to_string(), Value::Null);
    let filter = "a".to_string();
    let filtered = store.list_events(Some(&filter));
    assert_eq!(filtered.len(), 2);
    assert_eq!(filtered[0].id, e1.id);
    assert_eq!(filtered[1].id, e3.id);
    assert_eq!(filtered[0].event_type, "a".to_string());
    assert_eq!(filtered[1].event_type, "a".to_string());
    let all = store.list_events(None);
    assert_eq!(all.len(), 3);
}

#[test]
fn get_event_unknown_id_not_found() {
    let store = Store::new();
    let id = "nonexistent".to_string();
    let r = store.get_event(&id);
    assert_eq!(r, Err(ApiError::NotFound));
    assert_eq!(ApiError::NotFound.status_code(), 404);
}

#[test]
fn error_status_codes() {
    assert_eq!(ApiError::Validation.status_code(), 400);
    assert_eq!(ApiError::Io.status_code(), 500);
    assert_eq!(ApiError::Command.status_code(), 500);
}

#[test]
fn merge_overwrites_whole_keys() {
    let mut store = Store::new();
    store.merge_canvas_config(vec![("a".to_string(), Value::Num("1".to_string()))]);
    store.merge_canvas_config(vec![
        ("a".to_string(), Value::Num("2".to_string())),
        ("b".to_string(), Value::Num("3".to_string())),
    ]);
    let config = store.get_canvas_config();
    assert_eq!(config.len(), 2);
    assert_eq!(config[0], ("a".to_string(), Value::Num("2".to_string())));
    assert_eq!(config[1], ("b".to_string(), Value::Num("3".to_string())));
}

#[test]
fn merge_replaces_nested_objects_whole() {
    let mut store = Store::new();
    store.merge_canvas_config(vec![(
        "a".to_string(),
        Value::Obj(vec![("x".to_string(), Value::Num("1".to_string()))]),
    )]);
    store.merge_canvas_config(vec![(
        "a".to_string(),
        Value::Obj(vec![("y".to_string(), Value::Num("2".to_string()))]),
    )]);
    let config = store.get_canvas_config();
    assert_eq!(config.len(), 1);
    assert_eq!(
        config[0],
        (
            "a".to_string(),
            Value::Obj(vec![("y".to_string(), Value::Num("2".to_string()))])
        )
    );
}

#[test]
fn set_zoom_then_config_contains_zoom() {
    let mut store = Store::new();
    let r = store.set_zoom(Value::Num("2.5".to_string()));
    assert_eq!(r, Value::Num("2.5".to_string()));
    let config = store.get_canvas_config();
    let zoom = config.iter().find(|(k, _)| k == "zoom");
    assert_eq!(
        zoom,
        Some(&("zoom".to_string(), Value::Num("2.5".to_string())))
    );
}

#[test]
fn set_position_sets_object() {
    let mut store = Store::new();
    let r = store.set_position(
        Value::Num("1".to_string()),
        Value::Num("2".to_string()),
    );
    let expected = Value::Obj(vec![
        ("x".to_string(), Value::Num("1".to_string())),
        ("y".to_string(), Value::Num("2".to_string())),
    ]);
    assert_eq!(r, expected);
    let config = store.get_canvas_config();
    let pos = config.iter().find(|(k, _)| k == "position");
    assert_eq!(pos, Some(&("position".to_string(), expected)));
}

#[test]
fn append_node_generates_nonempty_id() {
    let mut store = Store::new();
    let node = store.append_node(Value::Obj(vec![]));
    match node {
        Value::Obj(entries) => {
            assert_eq!(entries.len(), 1);
            assert_eq!(entries[0].0, "id".to_string());
            match &entries[0].1 {
                Value::Str(id) => assert!(!id.is_empty()),
                other => panic!("generated id is not a string: {:?}", other),
            }
        }
        other => panic!("node is not an object: {:?}", other),
    }
}

#[test]
fn append_node_keeps_given_id() {
    let mut store = Store::new();
    let fields = Value::Obj(vec![
        ("id".to_string(), Value::Str("n1".to_string())),
        ("label".to_string(), Value::Str("box".to_string())),
    ]);
    let expected = Value::Obj(vec![
        ("id".to_string(), Value::Str("n1".to_string())),
        ("label".to_string(), Value::Str("box".to_string())),
    ]);
    let node = store.append_node(fields);
    assert_eq!(node, expected);
    let nodes = store.list_nodes();
    assert_eq!(nodes.len(), 1);
    assert_eq!(nodes[0], expected);
}

#[test]
fn append_node_generated_ids_differ() {
    let mut store = Store::new();
    let n1 = store.append_node(Value::Obj(vec![]));
    let n2 = store.append_node(Value::Obj(vec![]));
    let id_of = |v: &Value| -> String {
        match v {
            Value::Obj(entries) => match &entries[0].1 {
                Value::Str(id) => id.clone(),
                _ => panic!("id is not a string"),
            },
            _ => panic!("node is not an object"),
        }
    };
    assert_ne!(id_of(&n1), id_of(&n2));
}

#[test]
fn event_id_shape() {
    let mut store = Store::new();
    let e = store.append_event("t".to_string(), Value::Null);
    assert!(e.id.starts_with("evt_"));
    let suffix = e.id.rsplit('_').next().unwrap();
    assert_eq!(suffix.len(), 8);
    assert!(suffix.chars().all(|c| c.is_ascii_hexdigit()));
    assert!(!e.timestamp.is_empty());
}
