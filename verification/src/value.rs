//! The schemaless payload type: a tagged union for JSON-shaped data.
//!
//! A number is carried by its decimal text, so that no floating point
//! enters the library; the store never computes with numbers, it only
//! holds them.

use vstd::prelude::*;

verus! {

/// Mathematical model of a `Value`: the same tree over `Seq`s.
pub enum SpecVal {
    Null,
    Bool(bool),
    Num(Seq<char>),
    Str(Seq<char>),
    Arr(Seq<SpecVal>),
    Obj(Seq<(Seq<char>, SpecVal)>),
}

/// The schemaless value: null, boolean, number (as decimal text),
/// string, ordered sequence, or string-keyed mapping whose entries
/// keep their insertion order.
#[derive(Debug, PartialEq, Eq)]
pub enum Value {
    Null,
    Bool(bool),
    Num(String),
    Str(String),
    Arr(Vec<Value>),
    Obj(Vec<(String, Value)>),
}

impl Value {
    /// The model of this value.
    pub open spec fn deep(self) -> SpecVal
        decreases self,
    {
        match self {
            Value::Null => SpecVal::Null,
            Value::Bool(b) => SpecVal::Bool(b),
            Value::Num(s) => SpecVal::Num(s@),
            Value::Str(s) => SpecVal::Str(s@),
            Value::Arr(items) => SpecVal::Arr(deep_seq(items@)),
            Value::Obj(entries) => SpecVal::Obj(deep_entries(entries@)),
        }
    }
}

/// Elementwise model of a sequence of values.
pub open spec fn deep_seq(s: Seq<Value>) -> Seq<SpecVal>
    decreases s,
{
    if s.len() == 0 {
        Seq::empty()
    } else {
        seq![s[0].deep()] + deep_seq(s.subrange(1, s.len() as int))
    }
}

/// Elementwise model of a sequence of key/value entries.
pub open spec fn deep_entries(s: Seq<(String, Value)>) -> Seq<(Seq<char>, SpecVal)>
    decreases s,
{
    if s.len() == 0 {
        Seq::empty()
    } else {
        seq![(s[0].0@, s[0].1.deep())] + deep_entries(s.subrange(1, s.len() as int))
    }
}

impl View for Value {
    type V = SpecVal;

    open spec fn view(&self) -> SpecVal {
        self.deep()
    }
}

/// `deep_seq` is the elementwise model.
pub proof fn lemma_deep_seq(s: Seq<Value>)
    ensures
        deep_seq(s).len() == s.len(),
        forall|i: int| 0 <= i < s.len() ==> #[trigger] deep_seq(s)[i] == s[i]@,
    decreases s,
{
    if s.len() > 0 {
        lemma_deep_seq(s.subrange(1, s.len() as int));
    }
}

/// `deep_entries` is the elementwise model.
pub proof fn lemma_deep_entries(s: Seq<(String, Value)>)
    ensures
        deep_entries(s).len() == s.len(),
        forall|i: int| 0 <= i < s.len() ==> #[trigger] deep_entries(s)[i] == (s[i].0@, s[i].1@),
    decreases s,
{
    if s.len() > 0 {
        lemma_deep_entries(s.subrange(1, s.len() as int));
    }
}

/// First value bound to `key` among the entries, scanning from the front.
pub open spec fn entries_get(s: Seq<(Seq<char>, SpecVal)>, key: Seq<char>) -> Option<SpecVal>
    decreases s,
{
    if s.len() == 0 {
        None
    } else if s[0].0 == key {
        Some(s[0].1)
    } else {
        entries_get(s.subrange(1, s.len() as int), key)
    }
}

/// First value bound to `key` in an entry list, as `entries_get` gives it.
pub fn obj_get<'a>(entries: &'a Vec<(String, Value)>, key: &String) -> (r: Option<&'a Value>)
    ensures
        match r {
            Some(v) => entries_get(deep_entries(entries@), key@) == Some(v@),
            None => entries_get(deep_entries(entries@), key@) is None,
        },
{
    proof {
        lemma_deep_entries(entries@);
    }
    let ghost model = deep_entries(entries@);
    proof {
        assert(model.subrange(0, model.len() as int) =~= model);
    }
    let mut i: usize = 0;
    while i < entries.len()
        invariant
            i <= entries@.len(),
            model == deep_entries(entries@),
            model.len() == entries@.len(),
            forall|j: int| 0 <= j < entries@.len() ==> #[trigger] model[j] == (entries@[j].0@, entries@[j].1@),
            entries_get(model, key@) == entries_get(model.subrange(i as int, model.len() as int), key@),
        decreases entries@.len() - i,
    {
        let ghost rest = model.subrange(i as int, model.len() as int);
        proof {
            assert(rest[0] == model[i as int]);
            assert(rest.subrange(1, rest.len() as int)
                =~= model.subrange(i as int + 1, model.len() as int));
        }
        if entries[i].0 == *key {
            proof {
                assert(entries_get(rest, key@) == Some(model[i as int].1));
            }
            return Some(&entries[i].1);
        }
        proof {
            assert(entries_get(rest, key@)
                == entries_get(model.subrange(i as int + 1, model.len() as int), key@));
        }
        i = i + 1;
    }
    proof {
        assert(model.subrange(model.len() as int, model.len() as int) =~= Seq::empty());
    }
    None
}

impl Clone for Value {
    /// A clone has the same model.
    #[verifier::loop_isolation(false)]
    fn clone(&self) -> (r: Self)
        ensures
            r@ == self@,
        decreases self,
    {
        match self {
            Value::Null => Value::Null,
            Value::Bool(b) => Value::Bool(*b),
            Value::Num(s) => Value::Num(s.clone()),
            Value::Str(s) => Value::Str(s.clone()),
            Value::Arr(items) => {
                let mut out: Vec<Value> = Vec::new();
                let mut i: usize = 0;
                while i < items.len()
                    invariant
                        i <= items.len(),
                        out@.len() == i as int,
                        forall|j: int| 0 <= j < i ==> #[trigger] out@[j]@ == items@[j]@,
                    decreases items.len() - i,
                {
                    proof {
                        broadcast use vstd::std_specs::vec::axiom_vec_decreases_to_view;
                        broadcast use vstd::seq::axiom_seq_index_decreases;

                        assert(decreases_to!(*self => *items));
                        assert(decreases_to!(*items => items@));
                        assert(decreases_to!(items@ => items@[i as int]));
                    }
                    out.push(items[i].clone());
                    i = i + 1;
                }
                proof {
                    lemma_deep_seq(items@);
                    lemma_deep_seq(out@);
                    assert(deep_seq(out@) =~= deep_seq(items@));
                }
                Value::Arr(out)
            },
            Value::Obj(entries) => {
                let mut out: Vec<(String, Value)> = Vec::new();
                let mut i: usize = 0;
                while i < entries.len()
                    invariant
                        i <= entries.len(),
                        out@.len() == i as int,
                        forall|j: int| 0 <= j < i ==> #[trigger] out@[j].0@ == entries@[j].0@
                            && out@[j].1@ == entries@[j].1@,
                    decreases entries.len() - i,
                {
                    proof {
                        broadcast use vstd::std_specs::vec::axiom_vec_decreases_to_view;
                        broadcast use vstd::seq::axiom_seq_index_decreases;

                        assert(decreases_to!(*self => *entries));
                        assert(decreases_to!(*entries => entries@));
                        assert(decreases_to!(entries@ => entries@[i as int]));
                        assert(decreases_to!(entries@[i as int] => entries@[i as int].1));
                    }
                    let (k, v) = &entries[i];
                    out.push((k.clone(), v.clone()));
                    i = i + 1;
                }
                proof {
                    lemma_deep_entries(entries@);
                    lemma_deep_entries(out@);
                    assert(deep_entries(out@) =~= deep_entries(entries@));
                }
                Value::Obj(out)
            },
        }
    }
}

} // verus!
