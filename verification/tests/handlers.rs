use canvibe::handlers::create_event;
use canvibe::handlers::create_node;
use canvibe::handlers::get_canvas_state;
use canvibe::handlers::get_event;
use canvibe::handlers::get_events;
use canvibe::handlers::get_nodes;
use canvibe::handlers::health_check;
use canvibe::handlers::set_position;
use canvibe::handlers::set_zoom;
use canvibe::handlers::update_canvas_state;
use canvibe::store::ApiError;
use canvibe::store::Store;
use canvibe::value::Value;

#[test]
fn health_check_envelope() {
    let r = health_check();
    assert!(r.success);
    assert_eq!(r.message, "Canvibe API is running".to_string());
    let expected = Value::Obj(vec![
        ("version".to_string(), Value::Str("0.1.0".to_string())),
        ("status".to_string(), Value::Str("healthy".to_string())),
    ]);
    assert_eq!(r.data, Some(expected));
}

#[test]
fn get_events_counts_matches() {
    let mut store = Store::new();
    create_event(&mut store, "a".to_string(), Value::Null);
    create_event(&mut store, "b".to_string(), Value::Null);
    create_event(&mut store, "a".to_string(), Value::Null);
    let all = get_events(&store, None);
    assert!(all.success);
    assert_eq!(all.message, "Found 3 events".to_string());
    let filter = "a".to_string();
    let some = get_events(&store, Some(&filter));
    assert_eq!(some.message, "Found 2 events".to_string());
    match some.data {
        Some(Value::Arr(items)) => assert_eq!(items.len(), 2),
        other => panic!("events are not a sequence: {:?}", other),
    }
}

#[test]
fn create_event_envelope() {
    let mut store = Store::new();
    let r = create_event(
        &mut store,
        "node.moved".to_string(),
        Value::Num("7".to_string()),
    );
    assert!(r.success);
    assert_eq!(r.message, "Event created".to_string());
    match r.data {
        Some(Value::Obj(entries)) => {
            assert_eq!(entries[0].0, "id".to_string());
            assert_eq!(
                entries[1],
                ("type".to_string(), Value::Str("node.moved".to_string()))
            );
            assert_eq!(entries[2].0, "timestamp".to_string());
            assert_eq!(entries[3], ("data".to_string(), Value::Num("7".to_string())));
        }
        other => panic!("event is not an object: {:?}", other),
    }
}

#[test]
fn get_event_envelope_and_not_found() {
    let mut store = Store::new();
    let created = store.append_event("t".to_string(), Value::Null);
    let found = get_event(&store, &created.id).unwrap();
    assert!(found.success);
    assert_eq!(found.message, "Event found".to_string());
    let missing = "nope".to_string();
    assert_eq!(get_event(&store, &missing).unwrap_err(), ApiError::NotFound);
}

#[test]
fn get_nodes_envelope() {
    let mut store = Store::new();
    let empty = get_nodes(&store);
    assert_eq!(empty.message, "Found 0 nodes".to_string());
    assert_eq!(empty.data, Some(Value::Arr(vec![])));
    create_node(&mut store, Value::Obj(vec![]));
    let one = get_nodes(&store);
    assert_eq!(one.message, "Found 1 nodes".to_string());
}

#[test]
fn create_node_envelope() {
    let mut store = Store::new();
    let r = create_node(
        &mut store,
        Value::Obj(vec![("id".to_string(), Value::Str("n1".to_string()))]),
    );
    assert!(r.success);
    assert_eq!(r.message, "Node created".to_string());
    assert_eq!(
        r.data,
        Some(Value::Obj(vec![(
            "id".to_string(),
            Value::Str("n1".to_string())
        )]))
    );
}

#[test]
fn canvas_state_round_trip() {
    let mut store = Store::new();
    let updated = update_canvas_state(
        &mut store,
        vec![("grid".to_string(), Value::Bool(true))],
    );
    assert!(updated.success);
    assert_eq!(updated.message, "Canvas state updated".to_string());
    let state = get_canvas_state(&store);
    assert_eq!(state.message, "Canvas state retrieved".to_string());
    let expected = Value::Obj(vec![("grid".to_string(), Value::Bool(true))]);
    assert_eq!(state.data, Some(expected.clone()));
    assert_eq!(updated.data, Some(expected));
}

#[test]
fn set_zoom_envelope() {
    let mut store = Store::new();
    let r = set_zoom(&mut store, Value::Num("2.5".to_string()));
    assert!(r.success);
    assert_eq!(r.message, "Zoom set to 2.5".to_string());
    assert_eq!(
        r.data,
        Some(Value::Obj(vec![(
            "zoom".to_string(),
            Value::Num("2.5".to_string())
        )]))
    );
    let state = get_canvas_state(&store);
    assert_eq!(
        state.data,
        Some(Value::Obj(vec![(
            "zoom".to_string(),
            Value::Num("2.5".to_string())
        )]))
    );
}

#[test]
fn set_position_envelope() {
    let mut store = Store::new();
    let r = set_position(
        &mut store,
        Value::Num("10".to_string()),
        Value::Num("-3.5".to_string()),
    );
    assert!(r.success);
    assert_eq!(r.message, "Position set to (10, -3.5)".to_string());
    assert_eq!(
        r.data,
        Some(Value::Obj(vec![
            ("x".to_string(), Value::Num("10".to_string())),
            ("y".to_string(), Value::Num("-3.5".to_string())),
        ]))
    );
}
