//! The shared store: an append-only event log, an append-only node list,
//! and a key/value canvas configuration with whole-key overwrite updates.
//!
//! The store is a plain value here; the process wraps each partition in a
//! lock of its own and serializes mutation, so every operation below
//! describes one fully-serialized step.

use crate::strutil::bytes_to_hex_prefix;
use crate::strutil::i64_to_string;
use crate::value::deep_entries;
use crate::value::entries_get;
use crate::value::lemma_deep_entries;
use crate::value::obj_get;
use crate::value::SpecVal;
use crate::value::Value;
use vstd::prelude::*;

verus! {

/// Mathematical model of an event record.
pub struct SpecEvent {
    pub id: Seq<char>,
    pub event_type: Seq<char>,
    pub timestamp: Seq<char>,
    pub data: SpecVal,
}

/// An event: immutable once created, never removed from the log.
#[derive(Debug, PartialEq, Eq)]
pub struct Event {
    pub id: String,
    pub event_type: String,
    pub timestamp: String,
    pub data: Value,
}

impl View for Event {
    type V = SpecEvent;

    open spec fn view(&self) -> SpecEvent {
        SpecEvent {
            id: self.id@,
            event_type: self.event_type@,
            timestamp: self.timestamp@,
            data: self.data@,
        }
    }
}

impl Clone for Event {
    /// A clone has the same model.
    fn clone(&self) -> (r: Self)
        ensures
            r@ == self@,
    {
        Event {
            id: self.id.clone(),
            event_type: self.event_type.clone(),
            timestamp: self.timestamp.clone(),
            data: self.data.clone(),
        }
    }
}

/// Whether some event in the log carries this id.
pub open spec fn has_event_id(s: Seq<SpecEvent>, id: Seq<char>) -> bool {
    exists|i: int| 0 <= i < s.len() && #[trigger] s[i].id == id
}

/// The longest id carried by any event in the log.
pub open spec fn max_event_id_len(s: Seq<SpecEvent>) -> nat
    decreases s,
{
    if s.len() == 0 {
        0
    } else {
        let rest = max_event_id_len(s.drop_last());
        if s.last().id.len() > rest {
            s.last().id.len()
        } else {
            rest
        }
    }
}

/// No id in the log is longer than `max_event_id_len`.
proof fn lemma_event_id_le_max(s: Seq<SpecEvent>, id: Seq<char>)
    requires
        has_event_id(s, id),
    ensures
        id.len() <= max_event_id_len(s),
    decreases s,
{
    let i = choose|i: int| 0 <= i < s.len() && #[trigger] s[i].id == id;
    if i == s.len() - 1 {
    } else {
        assert(s.drop_last()[i] == s[i]);
        lemma_event_id_le_max(s.drop_last(), id);
    }
}

/// The error taxonomy: an unknown event id, a request body of the wrong
/// shape, a filesystem failure, or an external command failure.
#[derive(Clone, Copy, PartialEq, Eq, Structural, Debug)]
pub enum ApiError {
    NotFound,
    Validation,
    Io,
    Command,
}

impl ApiError {
    /// The HTTP status an error is translated to: 404 for an unknown id,
    /// 400 for a malformed body, 500 for the rest.
    pub fn status_code(&self) -> (r: u16)
        ensures
            r == match *self {
                ApiError::NotFound => 404u16,
                ApiError::Validation => 400u16,
                ApiError::Io => 500u16,
                ApiError::Command => 500u16,
            },
    {
        match self {
            ApiError::NotFound => 404,
            ApiError::Validation => 400,
            ApiError::Io => 500,
            ApiError::Command => 500,
        }
    }
}

/// The first event carrying this id, scanning the log from the front.
pub open spec fn find_event(s: Seq<SpecEvent>, id: Seq<char>) -> Option<SpecEvent>
    decreases s,
{
    if s.len() == 0 {
        None
    } else if s[0].id == id {
        Some(s[0])
    } else {
        find_event(s.subrange(1, s.len() as int), id)
    }
}

/// An event just appended under a fresh id is found by that id, unchanged:
/// same type, data and timestamp.
pub proof fn lemma_get_after_append(s: Seq<SpecEvent>, e: SpecEvent)
    requires
        !has_event_id(s, e.id),
    ensures
        find_event(s.push(e), e.id) == Some(e),
    decreases s,
{
    let t = s.push(e);
    if s.len() == 0 {
        assert(t[0] == e);
    } else {
        assert(s[0] == t[0]);
        assert(s[0].id != e.id);
        assert(t.subrange(1, t.len() as int) =~= s.subrange(1, s.len() as int).push(e));
        assert(!has_event_id(s.subrange(1, s.len() as int), e.id)) by {
            if has_event_id(s.subrange(1, s.len() as int), e.id) {
                let i = choose|i: int|
                    0 <= i < s.subrange(1, s.len() as int).len()
                        && #[trigger] s.subrange(1, s.len() as int)[i].id == e.id;
                assert(s[i + 1].id == e.id);
            }
        }
        lemma_get_after_append(s.subrange(1, s.len() as int), e);
    }
}

/// The events of one type, in their original append order.
pub open spec fn events_of_type(s: Seq<SpecEvent>, t: Seq<char>) -> Seq<SpecEvent> {
    s.filter(|x: SpecEvent| x.event_type == t)
}

/// A filtered listing holds only events of the asked type; every event of
/// that type reaches it; and appends extend it at the end or leave it
/// unchanged, so the original append order is preserved.
pub proof fn lemma_filter_events(s: Seq<SpecEvent>, t: Seq<char>, e: SpecEvent)
    ensures
        forall|i: int|
            0 <= i < events_of_type(s, t).len()
                ==> (#[trigger] events_of_type(s, t)[i]).event_type == t,
        forall|i: int|
            0 <= i < s.len() && (#[trigger] s[i]).event_type == t
                ==> events_of_type(s, t).contains(s[i]),
        e.event_type == t ==> events_of_type(s.push(e), t) == events_of_type(s, t).push(e),
        e.event_type != t ==> events_of_type(s.push(e), t) == events_of_type(s, t),
{
    let pred = |x: SpecEvent| x.event_type == t;
    assert forall|i: int| 0 <= i < events_of_type(s, t).len() implies (#[trigger] events_of_type(
        s,
        t,
    )[i]).event_type == t by {
        s.lemma_filter_pred(pred, i);
    }
    assert forall|i: int| 0 <= i < s.len() && (#[trigger] s[i]).event_type == t implies
        events_of_type(s, t).contains(s[i]) by {
        s.lemma_filter_contains(pred, i);
    }
    s.lemma_filter_push(e, pred);
}

/// The id string a node carries: the first `id` entry where it holds a
/// string, or the empty sequence where there is no such entry.
pub open spec fn node_id_mark(v: SpecVal) -> Seq<char> {
    if v is Obj {
        match entries_get(v->Obj_0, "id"@) {
            Some(SpecVal::Str(s)) => s,
            _ => Seq::empty(),
        }
    } else {
        Seq::empty()
    }
}

/// Whether some node in the list carries this id string.
pub open spec fn has_node_id(s: Seq<SpecVal>, id: Seq<char>) -> bool {
    exists|i: int| 0 <= i < s.len() && node_id_mark(#[trigger] s[i]) == id
}

/// The longest id string carried by any node in the list.
pub open spec fn max_node_id_len(s: Seq<SpecVal>) -> nat
    decreases s,
{
    if s.len() == 0 {
        0
    } else {
        let rest = max_node_id_len(s.drop_last());
        if node_id_mark(s.last()).len() > rest {
            node_id_mark(s.last()).len()
        } else {
            rest
        }
    }
}

/// No node id string is longer than `max_node_id_len`.
proof fn lemma_node_id_le_max(s: Seq<SpecVal>, id: Seq<char>)
    requires
        has_node_id(s, id),
    ensures
        id.len() <= max_node_id_len(s),
    decreases s,
{
    let i = choose|i: int| 0 <= i < s.len() && node_id_mark(#[trigger] s[i]) == id;
    if i == s.len() - 1 {
    } else {
        assert(s.drop_last()[i] == s[i]);
        lemma_node_id_le_max(s.drop_last(), id);
    }
}

/// Appending an entry under a key the list does not hold yet makes that
/// key found, bound to the appended value.
pub proof fn lemma_entries_get_push(
    s: Seq<(Seq<char>, SpecVal)>,
    key: Seq<char>,
    v: SpecVal,
)
    requires
        entries_get(s, key) is None,
    ensures
        entries_get(s.push((key, v)), key) == Some(v),
    decreases s,
{
    let t = s.push((key, v));
    if s.len() == 0 {
        assert(t[0] == (key, v));
    } else {
        assert(s[0] == t[0]);
        assert(s.subrange(1, s.len() as int) =~= t.subrange(1, t.len() as int).drop_last());
        assert(t.subrange(1, t.len() as int) =~= s.subrange(1, s.len() as int).push((key, v)));
        lemma_entries_get_push(s.subrange(1, s.len() as int), key, v);
    }
}

/// Whether some entry in the list carries this key.
pub open spec fn has_entry_key(s: Seq<(Seq<char>, SpecVal)>, key: Seq<char>) -> bool {
    exists|i: int| 0 <= i < s.len() && (#[trigger] s[i]).0 == key
}

/// Map form of an ordered entry list: a later entry overrides an earlier
/// one.
pub open spec fn map_of(s: Seq<(Seq<char>, SpecVal)>) -> Map<Seq<char>, SpecVal>
    decreases s,
{
    if s.len() == 0 {
        Map::empty()
    } else {
        map_of(s.drop_last()).insert(s.last().0, s.last().1)
    }
}

/// With pairwise-distinct keys, `map_of` binds each key of the list to
/// its entry's value, and no other key.
pub proof fn lemma_map_of_distinct(s: Seq<(Seq<char>, SpecVal)>)
    requires
        forall|i: int, j: int| 0 <= i < j < s.len() ==> s[i].0 != s[j].0,
    ensures
        forall|k: Seq<char>| #[trigger] map_of(s).contains_key(k) == has_entry_key(s, k),
        forall|i: int| 0 <= i < s.len() ==> map_of(s)[(#[trigger] s[i]).0] == s[i].1,
    decreases s,
{
    if s.len() > 0 {
        let rest = s.drop_last();
        lemma_map_of_distinct(rest);
        assert forall|k: Seq<char>| #[trigger] map_of(s).contains_key(k) == has_entry_key(
            s,
            k,
        ) by {
            if map_of(s).contains_key(k) {
                if k == s.last().0 {
                    assert(s[s.len() - 1].0 == k);
                } else {
                    assert(map_of(rest).contains_key(k));
                    assert(has_entry_key(rest, k));
                    let i = choose|i: int| 0 <= i < rest.len() && (#[trigger] rest[i]).0 == k;
                    assert(rest[i] == s[i]);
                    assert(s[i].0 == k);
                }
            }
            if has_entry_key(s, k) {
                let i = choose|i: int| 0 <= i < s.len() && (#[trigger] s[i]).0 == k;
                if i < s.len() - 1 {
                    assert(rest[i].0 == k);
                }
            }
        }
        assert forall|i: int| 0 <= i < s.len() implies map_of(s)[(#[trigger] s[i]).0]
            == s[i].1 by {
            if i < s.len() - 1 {
                assert(rest[i] == s[i]);
                assert(s[i].0 != s.last().0);
            }
        }
    }
}

/// Configuration merges overwrite whole keys. After merging `u1` and then
/// `u2` into `m`: a key of `u2` holds its `u2` value (a nested value from
/// `u1` is lost whole, not merged into), a key of `u1` alone holds its
/// `u1` value, any other key keeps its binding in `m`, and no other key
/// is bound.
pub proof fn lemma_merge_overwrites(
    m: Map<Seq<char>, SpecVal>,
    u1: Map<Seq<char>, SpecVal>,
    u2: Map<Seq<char>, SpecVal>,
    k: Seq<char>,
)
    ensures
        u2.contains_key(k) ==> m.union_prefer_right(u1).union_prefer_right(u2)[k] == u2[k],
        !u2.contains_key(k) && u1.contains_key(k) ==> m.union_prefer_right(
            u1,
        ).union_prefer_right(u2)[k] == u1[k],
        !u2.contains_key(k) && !u1.contains_key(k) && m.contains_key(k)
            ==> m.union_prefer_right(u1).union_prefer_right(u2)[k] == m[k],
        m.union_prefer_right(u1).union_prefer_right(u2).contains_key(k) == (m.contains_key(k)
            || u1.contains_key(k) || u2.contains_key(k)),
{
}

/// The store: three independent partitions, with no cross-partition
/// invariant.
pub struct Store {
    events: Vec<Event>,
    nodes: Vec<Value>,
    config: Vec<(String, Value)>,
}

impl Store {
    /// The event log, oldest first.
    pub closed spec fn events_model(self) -> Seq<SpecEvent> {
        self.events@.map_values(|e: Event| e@)
    }

    /// The node list, oldest first.
    pub closed spec fn nodes_model(self) -> Seq<SpecVal> {
        self.nodes@.map_values(|v: Value| v@)
    }

    /// The canvas configuration as an ordered entry list.
    pub closed spec fn config_entries(self) -> Seq<(Seq<char>, SpecVal)> {
        deep_entries(self.config@)
    }

    /// The canvas configuration as a mapping from key to value.
    pub open spec fn config_map(self) -> Map<Seq<char>, SpecVal> {
        map_of(self.config_entries())
    }

    /// Well-formedness: event ids are pairwise distinct, configuration
    /// keys are pairwise distinct, and every stored node is an object.
    pub closed spec fn wf(self) -> bool {
        &&& forall|i: int, j: int|
            0 <= i < j < self.events@.len() ==> self.events@[i].id@ != self.events@[j].id@
        &&& forall|i: int, j: int|
            0 <= i < j < self.config@.len() ==> self.config@[i].0@ != self.config@[j].0@
        &&& forall|i: int| 0 <= i < self.nodes@.len() ==> (#[trigger] self.nodes@[i]) is Obj
    }

    /// A new store holds nothing.
    pub fn new() -> (r: Store)
        ensures
            r.wf(),
            r.events_model() == Seq::<SpecEvent>::empty(),
            r.nodes_model() == Seq::<SpecVal>::empty(),
            r.config_entries() == Seq::<(Seq<char>, SpecVal)>::empty(),
    {
        let r = Store { events: Vec::new(), nodes: Vec::new(), config: Vec::new() };
        proof {
            assert(r.events_model() =~= Seq::<SpecEvent>::empty());
            assert(r.nodes_model() =~= Seq::<SpecVal>::empty());
            assert(r.config_entries() =~= Seq::<(Seq<char>, SpecVal)>::empty());
        }
        r
    }

    /// Event ids are pairwise distinct in a well-formed store: a log built
    /// by appends alone never holds two events with one id.
    pub proof fn lemma_event_ids_distinct(self)
        requires
            self.wf(),
        ensures
            forall|i: int, j: int|
                0 <= i < j < self.events_model().len()
                    ==> self.events_model()[i].id != self.events_model()[j].id,
    {
    }

    /// Whether some event in the log carries this id.
    fn contains_event_id(&self, id: &String) -> (r: bool)
        ensures
            r == has_event_id(self.events_model(), id@),
    {
        let ghost model = self.events_model();
        let mut i: usize = 0;
        while i < self.events.len()
            invariant
                i <= self.events@.len(),
                model == self.events_model(),
                model.len() == self.events@.len(),
                forall|j: int| 0 <= j < model.len() ==> #[trigger] model[j] == self.events@[j]@,
                forall|j: int| 0 <= j < i ==> #[trigger] model[j].id != id@,
            decreases self.events@.len() - i,
        {
            if self.events[i].id == *id {
                assert(model[i as int].id == id@);
                return true;
            }
            i = i + 1;
        }
        false
    }

    /// A fresh event id: a time component, a random suffix, and, should
    /// that ever collide with an id already in the log, enough padding to
    /// leave every existing id shorter.
    fn fresh_event_id(&self) -> (id: String)
        ensures
            !has_event_id(self.events_model(), id@),
            id@.len() > 0,
    {
        let ms = now_millis();
        let rb = random_bytes();
        let mut id = "evt_".to_owned();
        id.append(i64_to_string(ms).as_str());
        id.append("_");
        id.append(bytes_to_hex_prefix(&rb, 4).as_str());
        proof {
            reveal_strlit("evt_");
        }
        while self.contains_event_id(&id)
            invariant
                id@.len() > 0,
            decreases max_event_id_len(self.events_model()) + 1 - id@.len(),
        {
            proof {
                lemma_event_id_le_max(self.events_model(), id@);
            }
            id.append("x");
            proof {
                reveal_strlit("x");
            }
        }
        id
    }

    /// Overwrite (insert or replace) one configuration key.
    #[verifier::loop_isolation(false)]
    fn config_insert(&mut self, key: String, value: Value)
        requires
            old(self).wf(),
        ensures
            final(self).wf(),
            final(self).config_map() == old(self).config_map().insert(key@, value@),
            final(self).events_model() == old(self).events_model(),
            final(self).nodes_model() == old(self).nodes_model(),
    {
        let ghost olde = deep_entries(self.config@);
        proof {
            lemma_deep_entries(self.config@);
            assert forall|p: int, q: int| 0 <= p < q < olde.len() implies (#[trigger] olde[p]).0
                != (#[trigger] olde[q]).0 by {
                assert(old(self).config@[p].0@ != old(self).config@[q].0@);
            }
        }
        let mut i: usize = 0;
        while i < self.config.len()
            invariant
                i <= self.config@.len(),
                *self == *old(self),
                olde == deep_entries(self.config@),
                olde.len() == self.config@.len(),
                forall|j: int|
                    0 <= j < olde.len() ==> #[trigger] olde[j] == (
                        self.config@[j].0@,
                        self.config@[j].1@,
                    ),
                forall|j: int| 0 <= j < i ==> (#[trigger] olde[j]).0 != key@,
            decreases self.config@.len() - i,
        {
            if self.config[i].0 == key {
                let ghost st = *self;
                self.config[i] = (key, value);
                proof {
                    lemma_deep_entries(self.config@);
                    let newe = deep_entries(self.config@);
                    assert(newe =~= olde.update(i as int, (key@, value@)));
                    assert(olde[i as int].0 == key@);
                    assert forall|p: int, q: int|
                        0 <= p < q < self.config@.len() implies self.config@[p].0@
                        != self.config@[q].0@ by {
                        assert(newe[p].0 == olde[p].0 && newe[q].0 == olde[q].0);
                        assert(st.config@[p].0@ != st.config@[q].0@);
                    }
                    lemma_map_of_distinct(olde);
                    lemma_map_of_distinct(newe);
                    assert forall|j: int| 0 <= j < newe.len() implies (#[trigger] newe[j]).0
                        == olde[j].0 by {}
                    assert(map_of(newe) =~= map_of(olde).insert(key@, value@)) by {
                        assert forall|k: Seq<char>| #[trigger] map_of(newe).contains_key(k) implies
                            map_of(olde).insert(key@, value@).contains_key(k) by {
                            let j = choose|j: int| 0 <= j < newe.len() && (#[trigger] newe[j]).0
                                == k;
                            if k != key@ {
                                assert(olde[j].0 == k);
                            }
                        }
                        assert forall|k: Seq<char>|
                            map_of(olde).insert(key@, value@).contains_key(k) implies map_of(
                            newe,
                        ).contains_key(k) by {
                            if k == key@ {
                                assert(newe[i as int].0 == k);
                            } else {
                                let j = choose|j: int| 0 <= j < olde.len() && (#[trigger] olde[j]).0
                                    == k;
                                assert(newe[j].0 == k);
                            }
                        }
                        assert forall|k: Seq<char>| #[trigger] map_of(newe).contains_key(
                            k,
                        ) implies map_of(newe)[k] == map_of(olde).insert(key@, value@)[k] by {
                            let j = choose|j: int| 0 <= j < newe.len() && (#[trigger] newe[j]).0
                                == k;
                            assert(map_of(newe)[newe[j].0] == newe[j].1);
                            if j == i as int {
                                assert(k == key@);
                            } else {
                                assert(newe[j] == olde[j]);
                                assert(olde[j].0 != olde[i as int].0);
                                assert(map_of(olde)[olde[j].0] == olde[j].1);
                            }
                        }
                    }
                }
                return ;
            }
            i = i + 1;
        }
        let ghost st = *self;
        self.config.push((key, value));
        proof {
            lemma_deep_entries(self.config@);
            let newe = deep_entries(self.config@);
            assert(newe =~= olde.push((key@, value@)));
            assert(newe.drop_last() =~= olde);
            assert forall|p: int, q: int|
                0 <= p < q < self.config@.len() implies self.config@[p].0@
                != self.config@[q].0@ by {
                assert(newe[p].0 == self.config@[p].0@ && newe[q].0 == self.config@[q].0@);
                if q < newe.len() - 1 {
                    assert(st.config@[p].0@ != st.config@[q].0@);
                } else {
                    assert(olde[p].0 != key@);
                }
            }
        }
    }

    /// Merge updates into the canvas configuration: each key in `updates`
    /// is overwritten whole, in the order given; keys not in `updates`
    /// are untouched. Returns the resulting full configuration.
    pub fn merge_canvas_config(&mut self, updates: Vec<(String, Value)>) -> (r: Vec<
        (String, Value),
    >)
        requires
            old(self).wf(),
        ensures
            final(self).wf(),
            final(self).config_map() == old(self).config_map().union_prefer_right(
                map_of(deep_entries(updates@)),
            ),
            deep_entries(r@) == final(self).config_entries(),
            final(self).events_model() == old(self).events_model(),
            final(self).nodes_model() == old(self).nodes_model(),
    {
        proof {
            lemma_deep_entries(updates@);
            assert(old(self).config_map().union_prefer_right(
                map_of(deep_entries(updates@.take(0)))) =~= old(self).config_map()) by {
                assert(deep_entries(updates@.take(0)) =~= Seq::<(Seq<char>, SpecVal)>::empty());
            }
        }
        let ghost um = deep_entries(updates@);
        let mut i: usize = 0;
        while i < updates.len()
            invariant
                i <= updates@.len(),
                self.wf(),
                um == deep_entries(updates@),
                um.len() == updates@.len(),
                forall|j: int|
                    0 <= j < updates@.len() ==> #[trigger] um[j] == (
                        updates@[j].0@,
                        updates@[j].1@,
                    ),
                self.config_map() == old(self).config_map().union_prefer_right(
                    map_of(um.take(i as int)),
                ),
                self.events_model() == old(self).events_model(),
                self.nodes_model() == old(self).nodes_model(),
            decreases updates@.len() - i,
        {
            let ghost before = self.config_map();
            let k = updates[i].0.clone();
            let v = updates[i].1.clone();
            self.config_insert(k, v);
            proof {
                assert(um.take(i as int + 1).drop_last() =~= um.take(i as int));
                assert(um.take(i as int + 1).last() == um[i as int]);
                assert(map_of(um.take(i as int + 1)) == map_of(um.take(i as int)).insert(
                    um[i as int].0,
                    um[i as int].1,
                ));
                assert(self.config_map() =~= old(self).config_map().union_prefer_right(
                    map_of(um.take(i as int + 1)),
                ));
            }
            i = i + 1;
        }
        proof {
            assert(um.take(um.len() as int) =~= um);
        }
        self.get_canvas_config()
    }

    /// A snapshot copy of the current configuration entries.
    pub fn get_canvas_config(&self) -> (r: Vec<(String, Value)>)
        ensures
            deep_entries(r@) == self.config_entries(),
    {
        let ghost model = deep_entries(self.config@);
        proof {
            lemma_deep_entries(self.config@);
        }
        let mut out: Vec<(String, Value)> = Vec::new();
        let mut i: usize = 0;
        while i < self.config.len()
            invariant
                i <= self.config@.len(),
                model == deep_entries(self.config@),
                model.len() == self.config@.len(),
                forall|j: int|
                    0 <= j < model.len() ==> #[trigger] model[j] == (
                        self.config@[j].0@,
                        self.config@[j].1@,
                    ),
                deep_entries(out@) == model.take(i as int),
            decreases self.config@.len() - i,
        {
            let ghost outm = deep_entries(out@);
            proof {
                lemma_deep_entries(out@);
            }
            let k = self.config[i].0.clone();
            let v = self.config[i].1.clone();
            out.push((k, v));
            proof {
                lemma_deep_entries(out@);
                assert(deep_entries(out@) =~= outm.push(model[i as int]));
                assert(outm.push(model[i as int]) =~= model.take(i as int + 1));
            }
            i = i + 1;
        }
        proof {
            assert(model.take(model.len() as int) =~= model);
        }
        out
    }

    /// Set the conventional `zoom` key, returning the value set.
    pub fn set_zoom(&mut self, zoom: Value) -> (r: Value)
        requires
            old(self).wf(),
        ensures
            final(self).wf(),
            final(self).config_map() == old(self).config_map().insert("zoom"@, zoom@),
            r@ == zoom@,
            final(self).events_model() == old(self).events_model(),
            final(self).nodes_model() == old(self).nodes_model(),
    {
        let r = zoom.clone();
        self.config_insert("zoom".to_owned(), zoom);
        r
    }

    /// Set the conventional `position` key to an `{x, y}` object,
    /// returning the object set.
    pub fn set_position(&mut self, x: Value, y: Value) -> (r: Value)
        requires
            old(self).wf(),
        ensures
            final(self).wf(),
            r@ == SpecVal::Obj(seq![("x"@, x@), ("y"@, y@)]),
            final(self).config_map() == old(self).config_map().insert("position"@, r@),
            final(self).events_model() == old(self).events_model(),
            final(self).nodes_model() == old(self).nodes_model(),
    {
        let ghost xv = x@;
        let ghost yv = y@;
        let mut entries: Vec<(String, Value)> = Vec::new();
        entries.push(("x".to_owned(), x));
        entries.push(("y".to_owned(), y));
        let pos = Value::Obj(entries);
        proof {
            lemma_deep_entries(pos->Obj_0@);
            assert(deep_entries(pos->Obj_0@) =~= seq![(("x")@, xv), (("y")@, yv)]);
        }
        let r = pos.clone();
        self.config_insert("position".to_owned(), pos);
        r
    }

    /// Whether some node in the list carries this id string.
    fn contains_node_id(&self, id: &String) -> (r: bool)
        requires
            id@.len() > 0,
        ensures
            r == has_node_id(self.nodes_model(), id@),
    {
        let key = "id".to_owned();
        let ghost model = self.nodes_model();
        let mut i: usize = 0;
        while i < self.nodes.len()
            invariant
                i <= self.nodes@.len(),
                id@.len() > 0,
                key@ == "id"@,
                model == self.nodes_model(),
                model.len() == self.nodes@.len(),
                forall|j: int| 0 <= j < model.len() ==> #[trigger] model[j] == self.nodes@[j]@,
                forall|j: int| 0 <= j < i ==> node_id_mark(#[trigger] model[j]) != id@,
            decreases self.nodes@.len() - i,
        {
            match &self.nodes[i] {
                Value::Obj(entries) => {
                    proof {
                        assert(model[i as int] == self.nodes@[i as int]@);
                    }
                    match obj_get(entries, &key) {
                        Some(Value::Str(s)) => {
                            if *s == *id {
                                assert(node_id_mark(model[i as int]) == id@);
                                return true;
                            }
                        },
                        _ => {
                            assert(node_id_mark(model[i as int]).len() == 0);
                        },
                    }
                },
                _ => {
                    assert(node_id_mark(model[i as int]).len() == 0);
                },
            }
            i = i + 1;
        }
        false
    }

    /// A fresh node id: a random suffix and, should that ever collide with
    /// an id string already in the list, enough padding to leave every
    /// existing id string shorter.
    fn fresh_node_id(&self) -> (id: String)
        ensures
            !has_node_id(self.nodes_model(), id@),
            id@.len() > 0,
    {
        let rb = random_bytes();
        let mut id = "node_".to_owned();
        id.append(bytes_to_hex_prefix(&rb, 4).as_str());
        proof {
            reveal_strlit("node_");
        }
        while self.contains_node_id(&id)
            invariant
                id@.len() > 0,
            decreases max_node_id_len(self.nodes_model()) + 1 - id@.len(),
        {
            proof {
                lemma_node_id_le_max(self.nodes_model(), id@);
            }
            id.append("x");
            proof {
                reveal_strlit("x");
            }
        }
        id
    }

    /// Append a node. Where the given fields carry an `id` entry the node
    /// is stored unchanged; where they do not, a generated id — a
    /// non-empty string carried by no earlier node — is appended to them.
    /// The returned record is the stored one.
    pub fn append_node(&mut self, fields: Value) -> (r: Value)
        requires
            old(self).wf(),
            fields is Obj,
        ensures
            final(self).wf(),
            final(self).nodes_model() == old(self).nodes_model().push(r@),
            final(self).events_model() == old(self).events_model(),
            final(self).config_entries() == old(self).config_entries(),
            r@ is Obj,
            entries_get(fields@->Obj_0, "id"@) is Some ==> r@ == fields@,
            entries_get(fields@->Obj_0, "id"@) is None ==> {
                &&& (r@->Obj_0).len() == (fields@->Obj_0).len() + 1
                &&& r@->Obj_0 == (fields@->Obj_0).push((r@->Obj_0).last())
                &&& (r@->Obj_0).last().0 == "id"@
                &&& (r@->Obj_0).last().1 is Str
                &&& ((r@->Obj_0).last().1->Str_0).len() > 0
                &&& !has_node_id(old(self).nodes_model(), (r@->Obj_0).last().1->Str_0)
                &&& entries_get(r@->Obj_0, "id"@) == Some((r@->Obj_0).last().1)
            },
    {
        let mut node = fields;
        let key = "id".to_owned();
        let has_id = match &node {
            Value::Obj(entries) => obj_get(entries, &key).is_some(),
            _ => true,
        };
        if !has_id {
            let gen = self.fresh_node_id();
            match &mut node {
                Value::Obj(entries) => {
                    let ghost oldes = entries@;
                    entries.push((key, Value::Str(gen)));
                    proof {
                        lemma_deep_entries(oldes);
                        lemma_deep_entries(entries@);
                        assert(deep_entries(entries@) =~= deep_entries(oldes).push(
                            (("id")@, node@->Obj_0.last().1),
                        ));
                        lemma_entries_get_push(
                            deep_entries(oldes),
                            ("id")@,
                            node@->Obj_0.last().1,
                        );
                    }
                },
                _ => {},
            }
        }
        let r = node.clone();
        let ghost nv = node@;
        let ghost oldm = self.nodes_model();
        self.nodes.push(node);
        proof {
            assert(self.nodes_model() =~= oldm.push(nv));
        }
        r
    }

    /// List all nodes, oldest first: a full snapshot, unfiltered.
    pub fn list_nodes(&self) -> (r: Vec<Value>)
        ensures
            r@.map_values(|v: Value| v@) == self.nodes_model(),
    {
        let ghost model = self.nodes_model();
        let mut out: Vec<Value> = Vec::new();
        let mut i: usize = 0;
        while i < self.nodes.len()
            invariant
                i <= self.nodes@.len(),
                model == self.nodes_model(),
                model.len() == self.nodes@.len(),
                forall|j: int| 0 <= j < model.len() ==> #[trigger] model[j] == self.nodes@[j]@,
                out@.map_values(|v: Value| v@) == model.take(i as int),
            decreases self.nodes@.len() - i,
        {
            let ghost outm = out@.map_values(|v: Value| v@);
            out.push(self.nodes[i].clone());
            proof {
                assert(out@.map_values(|v: Value| v@) =~= outm.push(model[i as int]));
                assert(outm.push(model[i as int]) =~= model.take(i as int + 1));
            }
            i = i + 1;
        }
        proof {
            assert(model.take(model.len() as int) =~= model);
        }
        out
    }

    /// Append an event: the id and timestamp are generated here, the log
    /// grows by exactly this one record, and the new id is carried by no
    /// earlier event. The returned record is the stored one.
    pub fn append_event(&mut self, event_type: String, data: Value) -> (r: Event)
        requires
            old(self).wf(),
        ensures
            final(self).wf(),
            final(self).events_model() == old(self).events_model().push(r@),
            r@.event_type == event_type@,
            r@.data == data@,
            r@.id.len() > 0,
            !has_event_id(old(self).events_model(), r@.id),
            final(self).nodes_model() == old(self).nodes_model(),
            final(self).config_entries() == old(self).config_entries(),
    {
        let id = self.fresh_event_id();
        let timestamp = now_rfc3339();
        let e = Event { id, event_type, timestamp, data };
        let ghost ev = e@;
        let r = e.clone();
        let ghost oldm = self.events_model();
        self.events.push(e);
        proof {
            assert(self.events_model() =~= oldm.push(ev));
            assert forall|i: int, j: int|
                0 <= i < j < self.events@.len() implies self.events@[i].id@
                != self.events@[j].id@ by {
                if j == self.events@.len() - 1 {
                    assert(oldm[i].id == self.events@[i].id@);
                    assert(!has_event_id(oldm, ev.id));
                }
            }
        }
        r
    }

    /// Look an event up by id: the first (and, in a well-formed store,
    /// only) event carrying it, or `NotFound` where no event does.
    pub fn get_event(&self, id: &String) -> (r: Result<Event, ApiError>)
        ensures
            match r {
                Ok(e) => find_event(self.events_model(), id@) == Some(e@),
                Err(err) => err == ApiError::NotFound && find_event(
                    self.events_model(),
                    id@,
                ) is None,
            },
    {
        let ghost model = self.events_model();
        proof {
            assert(model.subrange(0, model.len() as int) =~= model);
        }
        let mut i: usize = 0;
        while i < self.events.len()
            invariant
                i <= self.events@.len(),
                model == self.events_model(),
                model.len() == self.events@.len(),
                forall|j: int| 0 <= j < model.len() ==> #[trigger] model[j] == self.events@[j]@,
                find_event(model, id@) == find_event(
                    model.subrange(i as int, model.len() as int),
                    id@,
                ),
            decreases self.events@.len() - i,
        {
            let ghost rest = model.subrange(i as int, model.len() as int);
            proof {
                assert(rest[0] == model[i as int]);
                assert(rest.subrange(1, rest.len() as int) =~= model.subrange(
                    i as int + 1,
                    model.len() as int,
                ));
            }
            if self.events[i].id == *id {
                proof {
                    assert(find_event(rest, id@) == Some(model[i as int]));
                }
                return Ok(self.events[i].clone());
            }
            i = i + 1;
        }
        proof {
            assert(model.subrange(model.len() as int, model.len() as int) =~= Seq::<
                SpecEvent,
            >::empty());
        }
        Err(ApiError::NotFound)
    }

    /// List events, oldest first: the whole log, or, with a filter, only
    /// the events of that type, in their original append order.
    pub fn list_events(&self, filter_type: Option<&String>) -> (r: Vec<Event>)
        ensures
            match filter_type {
                Some(t) => r@.map_values(|e: Event| e@) == self.events_model().filter(
                    |e: SpecEvent| e.event_type == t@,
                ),
                None => r@.map_values(|e: Event| e@) == self.events_model(),
            },
    {
        let ghost model = self.events_model();
        let mut out: Vec<Event> = Vec::new();
        proof {
            reveal(Seq::filter);
        }
        match filter_type {
            Some(t) => {
                let mut i: usize = 0;
                while i < self.events.len()
                    invariant
                        i <= self.events@.len(),
                        model == self.events_model(),
                        model.len() == self.events@.len(),
                        forall|j: int|
                            0 <= j < model.len() ==> #[trigger] model[j] == self.events@[j]@,
                        out@.map_values(|e: Event| e@) == model.take(i as int).filter(
                            |e: SpecEvent| e.event_type == t@,
                        ),
                    decreases self.events@.len() - i,
                {
                    let ghost pred = |e: SpecEvent| e.event_type == t@;
                    proof {
                        assert(model.take(i as int + 1) =~= model.take(i as int).push(
                            model[i as int],
                        ));
                        model.take(i as int).lemma_filter_push(model[i as int], pred);
                    }
                    if self.events[i].event_type == *t {
                        let ghost outm = out@.map_values(|e: Event| e@);
                        out.push(self.events[i].clone());
                        proof {
                            assert(pred(model[i as int]));
                            assert(out@.map_values(|e: Event| e@) =~= outm.push(
                                model[i as int],
                            ));
                        }
                    } else {
                        proof {
                            assert(!pred(model[i as int]));
                        }
                    }
                    i = i + 1;
                }
                proof {
                    assert(model.take(model.len() as int) =~= model);
                }
                out
            },
            None => {
                let mut i: usize = 0;
                while i < self.events.len()
                    invariant
                        i <= self.events@.len(),
                        model == self.events_model(),
                        model.len() == self.events@.len(),
                        forall|j: int|
                            0 <= j < model.len() ==> #[trigger] model[j] == self.events@[j]@,
                        out@.map_values(|e: Event| e@) == model.take(i as int),
                    decreases self.events@.len() - i,
                {
                    let ghost outm = out@.map_values(|e: Event| e@);
                    out.push(self.events[i].clone());
                    proof {
                        assert(out@.map_values(|e: Event| e@) =~= outm.push(model[i as int]));
                        assert(outm.push(model[i as int]) =~= model.take(i as int + 1));
                    }
                    i = i + 1;
                }
                proof {
                    assert(model.take(model.len() as int) =~= model);
                }
                out
            },
        }
    }
}

/// Relies on `chrono::Utc::now` and `DateTime::timestamp_millis`:
/// milliseconds since the epoch. The result depends on the clock, so
/// nothing is promised of its value.
#[verifier::external_body]
fn now_millis() -> (r: i64) {
    chrono::Utc::now().timestamp_millis()
}

/// Relies on `chrono::Utc::now` and `DateTime::to_rfc3339`: the current
/// time rendered as an RFC 3339 string. The result depends on the clock,
/// so nothing is promised of its value.
#[verifier::external_body]
fn now_rfc3339() -> (r: String) {
    chrono::Utc::now().to_rfc3339()
}

/// Relies on `uuid::Uuid::new_v4` and `Uuid::as_bytes`: sixteen random
/// bytes (`uuid::Bytes` is `[u8; 16]`). The bytes are random, so only
/// their number is promised.
#[verifier::external_body]
fn random_bytes() -> (r: Vec<u8>)
    ensures
        r@.len() == 16,
{
    uuid::Uuid::new_v4().as_bytes().to_vec()
}

} // verus!
