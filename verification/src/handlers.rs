//! Request handlers: they take plain request values, run one store
//! operation, and wrap the outcome in the uniform response envelope.
//! The HTTP transport around them parses bodies and translates an
//! `ApiError` to a status code.

use crate::store::find_event;
use crate::store::has_event_id;
use crate::store::has_node_id;
use crate::store::map_of;
use crate::store::ApiError;
use crate::store::Event;
use crate::store::SpecEvent;
use crate::store::Store;
use crate::strutil::dec_digits;
use crate::strutil::u64_to_string;
use crate::value::deep_entries;
use crate::value::deep_seq;
use crate::value::entries_get;
use crate::value::lemma_deep_entries;
use crate::value::lemma_deep_seq;
use crate::value::SpecVal;
use crate::value::Value;
use vstd::prelude::*;

verus! {

/// The uniform response envelope.
#[derive(Debug)]
pub struct ApiResponse {
    pub success: bool,
    pub message: String,
    pub data: Option<Value>,
}

/// The object form of an event record, as the envelope carries it.
pub open spec fn event_value(e: SpecEvent) -> SpecVal {
    SpecVal::Obj(
        seq![
            ("id"@, SpecVal::Str(e.id)),
            ("type"@, SpecVal::Str(e.event_type)),
            ("timestamp"@, SpecVal::Str(e.timestamp)),
            ("data"@, e.data),
        ],
    )
}

/// Build the object form of an event record.
fn event_to_value(e: &Event) -> (r: Value)
    ensures
        r@ == event_value(e@),
{
    let mut entries: Vec<(String, Value)> = Vec::new();
    entries.push(("id".to_owned(), Value::Str(e.id.clone())));
    entries.push(("type".to_owned(), Value::Str(e.event_type.clone())));
    entries.push(("timestamp".to_owned(), Value::Str(e.timestamp.clone())));
    entries.push(("data".to_owned(), e.data.clone()));
    let r = Value::Obj(entries);
    proof {
        lemma_deep_entries(r->Obj_0@);
        assert(deep_entries(r->Obj_0@) =~= event_value(e@)->Obj_0);
    }
    r
}

/// Build the sequence form of a list of events.
fn events_to_value(events: &Vec<Event>) -> (r: Value)
    ensures
        r@ == SpecVal::Arr(events@.map_values(|e: Event| e@).map_values(|e: SpecEvent| event_value(e))),
{
    let mut items: Vec<Value> = Vec::new();
    let ghost model = events@.map_values(|e: Event| e@).map_values(
        |e: SpecEvent| event_value(e),
    );
    let mut i: usize = 0;
    while i < events.len()
        invariant
            i <= events@.len(),
            model == events@.map_values(|e: Event| e@).map_values(
                |e: SpecEvent| event_value(e),
            ),
            model.len() == events@.len(),
            forall|j: int|
                0 <= j < events@.len() ==> #[trigger] model[j] == event_value(events@[j]@),
            deep_seq(items@) == model.take(i as int),
        decreases events@.len() - i,
    {
        let ghost itemsm = deep_seq(items@);
        proof {
            lemma_deep_seq(items@);
        }
        items.push(event_to_value(&events[i]));
        proof {
            lemma_deep_seq(items@);
            assert(deep_seq(items@) =~= itemsm.push(model[i as int]));
            assert(itemsm.push(model[i as int]) =~= model.take(i as int + 1));
        }
        i = i + 1;
    }
    proof {
        assert(model.take(model.len() as int) =~= model);
    }
    Value::Arr(items)
}

/// Build the object form of a configuration snapshot.
fn config_to_value(entries: Vec<(String, Value)>) -> (r: Value)
    ensures
        r@ == SpecVal::Obj(deep_entries(entries@)),
{
    let r = Value::Obj(entries);
    r
}

/// The health report: a fixed success envelope.
pub fn health_check() -> (r: ApiResponse)
    ensures
        r.success,
        r.message@ == "Canvibe API is running"@,
        r.data matches Some(v) && v@ == SpecVal::Obj(
            seq![
                ("version"@, SpecVal::Str("0.1.0"@)),
                ("status"@, SpecVal::Str("healthy"@)),
            ],
        ),
{
    let mut entries: Vec<(String, Value)> = Vec::new();
    entries.push(("version".to_owned(), Value::Str("0.1.0".to_owned())));
    entries.push(("status".to_owned(), Value::Str("healthy".to_owned())));
    let data = Value::Obj(entries);
    proof {
        lemma_deep_entries(data->Obj_0@);
        assert(deep_entries(data->Obj_0@) =~= seq![
            (("version")@, SpecVal::Str(("0.1.0")@)),
            (("status")@, SpecVal::Str(("healthy")@)),
        ]);
    }
    ApiResponse {
        success: true,
        message: "Canvibe API is running".to_owned(),
        data: Some(data),
    }
}

/// A message of the form `Found <n> <noun>`.
fn found_message(n: usize, noun: &str) -> (r: String)
    ensures
        r@ == "Found "@ + dec_digits(n as nat) + " "@ + noun@,
{
    let mut m = "Found ".to_owned();
    m.append(u64_to_string(n as u64).as_str());
    m.append(" ");
    m.append(noun);
    proof {
        assert(m@ =~= "Found "@ + dec_digits(n as nat) + " "@ + noun@);
    }
    m
}

/// List events, optionally filtered by type: the envelope carries the
/// matching events in their original append order.
pub fn get_events(store: &Store, filter_type: Option<&String>) -> (r: ApiResponse)
    ensures
        r.success,
        r.data matches Some(v) && v@ == SpecVal::Arr(
            match filter_type {
                Some(t) => crate::store::events_of_type(store.events_model(), t@).map_values(
                    |e: SpecEvent| event_value(e),
                ),
                None => store.events_model().map_values(|e: SpecEvent| event_value(e)),
            },
        ),
        r.message@ == "Found "@ + dec_digits(
            match filter_type {
                Some(t) => crate::store::events_of_type(store.events_model(), t@).len(),
                None => store.events_model().len(),
            },
        ) + " events"@,
{
    let filtered = store.list_events(filter_type);
    let data = events_to_value(&filtered);
    let message = found_message(filtered.len(), "events");
    proof {
        reveal_strlit(" ");
        reveal_strlit("events");
        reveal_strlit(" events");
        assert(" "@ + "events"@ =~= " events"@);
        assert(message@ =~= "Found "@ + dec_digits(filtered@.len() as nat) + " events"@);
    }
    ApiResponse { success: true, message, data: Some(data) }
}

/// Create an event from a request body already validated by the
/// transport: the log grows by exactly the returned record.
pub fn create_event(store: &mut Store, event_type: String, data: Value) -> (r: ApiResponse)
    requires
        old(store).wf(),
    ensures
        final(store).wf(),
        r.success,
        r.message@ == "Event created"@,
        final(store).events_model().len() == old(store).events_model().len() + 1,
        final(store).events_model().drop_last() == old(store).events_model(),
        r.data matches Some(v) && v@ == event_value(final(store).events_model().last()),
        final(store).events_model().last().event_type == event_type@,
        final(store).events_model().last().data == data@,
        !has_event_id(old(store).events_model(), final(store).events_model().last().id),
        final(store).nodes_model() == old(store).nodes_model(),
        final(store).config_entries() == old(store).config_entries(),
{
    let e = store.append_event(event_type, data);
    let data_value = event_to_value(&e);
    proof {
        assert(store.events_model().drop_last() =~= old(store).events_model());
    }
    ApiResponse {
        success: true,
        message: "Event created".to_owned(),
        data: Some(data_value),
    }
}

/// Fetch one event by id: `NotFound` where no event carries it.
pub fn get_event(store: &Store, id: &String) -> (r: Result<ApiResponse, ApiError>)
    ensures
        match r {
            Ok(resp) => {
                &&& resp.success
                &&& resp.message@ == "Event found"@
                &&& find_event(store.events_model(), id@) matches Some(e) && (resp.data matches
                    Some(v) && v@ == event_value(e))
            },
            Err(err) => {
                &&& err == ApiError::NotFound
                &&& find_event(store.events_model(), id@) is None
            },
        },
{
    match store.get_event(id) {
        Ok(e) => {
            let data = event_to_value(&e);
            Ok(
                ApiResponse {
                    success: true,
                    message: "Event found".to_owned(),
                    data: Some(data),
                },
            )
        },
        Err(err) => Err(err),
    }
}

/// List all nodes: the envelope carries the full snapshot, oldest first.
pub fn get_nodes(store: &Store) -> (r: ApiResponse)
    ensures
        r.success,
        r.data matches Some(v) && v@ == SpecVal::Arr(store.nodes_model()),
        r.message@ == "Found "@ + dec_digits(store.nodes_model().len()) + " nodes"@,
{
    let nodes = store.list_nodes();
    let message = found_message(nodes.len(), "nodes");
    proof {
        lemma_deep_seq(nodes@);
        assert(deep_seq(nodes@) =~= store.nodes_model());
        reveal_strlit(" ");
        reveal_strlit("nodes");
        reveal_strlit(" nodes");
        assert(" "@ + "nodes"@ =~= " nodes"@);
        assert(message@ =~= "Found "@ + dec_digits(nodes@.len() as nat) + " nodes"@);
    }
    ApiResponse { success: true, message, data: Some(Value::Arr(nodes)) }
}

/// Create a node from an object body already validated by the transport:
/// the list grows by exactly the returned record, and a node without an
/// `id` entry is given a generated one.
pub fn create_node(store: &mut Store, fields: Value) -> (r: ApiResponse)
    requires
        old(store).wf(),
        fields is Obj,
    ensures
        final(store).wf(),
        r.success,
        r.message@ == "Node created"@,
        r.data matches Some(v) && final(store).nodes_model() == old(store).nodes_model().push(
            v@,
        ),
        r.data matches Some(v) && v@ is Obj,
        r.data matches Some(v) && (entries_get(fields@->Obj_0, "id"@) is Some ==> v@
            == fields@),
        r.data matches Some(v) && (entries_get(fields@->Obj_0, "id"@) is None ==> {
            &&& v@->Obj_0 == (fields@->Obj_0).push((v@->Obj_0).last())
            &&& (v@->Obj_0).last().0 == "id"@
            &&& (v@->Obj_0).last().1 is Str
            &&& ((v@->Obj_0).last().1->Str_0).len() > 0
            &&& !has_node_id(old(store).nodes_model(), (v@->Obj_0).last().1->Str_0)
        }),
        final(store).events_model() == old(store).events_model(),
        final(store).config_entries() == old(store).config_entries(),
{
    let node = store.append_node(fields);
    ApiResponse {
        success: true,
        message: "Node created".to_owned(),
        data: Some(node),
    }
}

/// Read the full canvas configuration.
pub fn get_canvas_state(store: &Store) -> (r: ApiResponse)
    ensures
        r.success,
        r.message@ == "Canvas state retrieved"@,
        r.data matches Some(v) && v@ == SpecVal::Obj(store.config_entries()),
{
    let entries = store.get_canvas_config();
    ApiResponse {
        success: true,
        message: "Canvas state retrieved".to_owned(),
        data: Some(config_to_value(entries)),
    }
}

/// Merge updates into the canvas configuration, key by key, and return
/// the resulting full configuration.
pub fn update_canvas_state(store: &mut Store, updates: Vec<(String, Value)>) -> (r: ApiResponse)
    requires
        old(store).wf(),
    ensures
        final(store).wf(),
        r.success,
        r.message@ == "Canvas state updated"@,
        final(store).config_map() == old(store).config_map().union_prefer_right(
            map_of(deep_entries(updates@)),
        ),
        r.data matches Some(v) && v@ == SpecVal::Obj(final(store).config_entries()),
        final(store).events_model() == old(store).events_model(),
        final(store).nodes_model() == old(store).nodes_model(),
{
    let result = store.merge_canvas_config(updates);
    ApiResponse {
        success: true,
        message: "Canvas state updated".to_owned(),
        data: Some(config_to_value(result)),
    }
}

/// Set the `zoom` key to the given number.
pub fn set_zoom(store: &mut Store, zoom: Value) -> (r: ApiResponse)
    requires
        old(store).wf(),
        zoom is Num,
    ensures
        final(store).wf(),
        r.success,
        r.message@ == "Zoom set to "@ + zoom@->Num_0,
        final(store).config_map() == old(store).config_map().insert("zoom"@, zoom@),
        r.data matches Some(v) && v@ == SpecVal::Obj(seq![("zoom"@, zoom@)]),
        final(store).events_model() == old(store).events_model(),
        final(store).nodes_model() == old(store).nodes_model(),
{
    let mut message = "Zoom set to ".to_owned();
    match &zoom {
        Value::Num(s) => message.append(s.as_str()),
        _ => {},
    }
    let stored = store.set_zoom(zoom);
    let mut entries: Vec<(String, Value)> = Vec::new();
    entries.push(("zoom".to_owned(), stored));
    let data = Value::Obj(entries);
    proof {
        lemma_deep_entries(data->Obj_0@);
        assert(deep_entries(data->Obj_0@) =~= seq![(("zoom")@, zoom@)]);
    }
    ApiResponse { success: true, message, data: Some(data) }
}

/// Set the `position` key to an `{x, y}` object of the two numbers.
pub fn set_position(store: &mut Store, x: Value, y: Value) -> (r: ApiResponse)
    requires
        old(store).wf(),
        x is Num,
        y is Num,
    ensures
        final(store).wf(),
        r.success,
        r.message@ == "Position set to ("@ + x@->Num_0 + ", "@ + y@->Num_0 + ")"@,
        final(store).config_map() == old(store).config_map().insert(
            "position"@,
            SpecVal::Obj(seq![("x"@, x@), ("y"@, y@)]),
        ),
        r.data matches Some(v) && v@ == SpecVal::Obj(seq![("x"@, x@), ("y"@, y@)]),
        final(store).events_model() == old(store).events_model(),
        final(store).nodes_model() == old(store).nodes_model(),
{
    let mut message = "Position set to (".to_owned();
    match &x {
        Value::Num(s) => message.append(s.as_str()),
        _ => {},
    }
    message.append(", ");
    match &y {
        Value::Num(s) => message.append(s.as_str()),
        _ => {},
    }
    message.append(")");
    let pos = store.set_position(x, y);
    proof {
        assert(message@ =~= "Position set to ("@ + x@->Num_0 + ", "@ + y@->Num_0 + ")"@);
    }
    ApiResponse { success: true, message, data: Some(pos) }
}

} // verus!
