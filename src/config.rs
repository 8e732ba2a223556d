use vstd::prelude::*;

use crate::decode::{parse_config, DecodeError, Fault};
use crate::event::{dict_stream, encode_entries, signals_of, Event, Signal};
use crate::value::{entries_wf, has_key, has_key_spec, keys_unique, map_of, Shape, Tree, Value};

verus! {

/// A top-level document: always a dictionary, whose keys are unique.
#[derive(Debug)]
pub struct Config {
    entries: Vec<(String, Value)>,
}

impl View for Config {
    type V = Map<Seq<char>, Tree>;

    closed spec fn view(&self) -> Map<Seq<char>, Tree> {
        map_of(self.entries@)
    }
}

impl Config {
    /// The entries, in stored order.
    pub closed spec fn entries_spec(&self) -> Seq<(String, Value)> {
        self.entries@
    }

    /// Keys are unique, and so are they in every nested dictionary.
    pub closed spec fn wf(&self) -> bool {
        keys_unique(self.entries@) && entries_wf(self.entries@)
    }

    /// The events that describe this document, as those of its dictionary.
    pub closed spec fn stream(&self) -> Seq<Signal> {
        dict_stream(self.entries@)
    }

    /// What the document's meaning, events and well-formedness are, in
    /// terms of its entries.
    pub proof fn lemma_unfold(&self)
        ensures
            self@ == map_of(self.entries_spec()),
            self.stream() == dict_stream(self.entries_spec()),
            self.wf() == (keys_unique(self.entries_spec()) && entries_wf(self.entries_spec())),
    {
    }

    /// Builds the document that a stream of events describes: one mapping,
    /// whose keys are unique at every depth.
    pub fn decode(events: &Vec<Event>) -> (r: Result<Config, DecodeError>)
        ensures
            match r {
                Ok(c) => parse_config(signals_of(events@)) == Ok::<Map<Seq<char>, Tree>, Fault>(
                    c@,
                ) && c.wf(),
                Err(e) => parse_config(signals_of(events@)) == Err::<Map<Seq<char>, Tree>, Fault>(
                    e@,
                ),
            },
    {
        match Value::decode(events) {
            Err(e) => Err(e),
            Ok(Value::Dict(entries)) => Ok(Config { entries }),
            Ok(Value::List(_)) => Err(DecodeError::NotAMap(Shape::List)),
            Ok(Value::String(_)) => Err(DecodeError::NotAMap(Shape::String)),
        }
    }

    /// The events that describe this document, for a format writer.
    pub fn encode(&self) -> (r: Vec<Event>)
        ensures
            signals_of(r@) == self.stream(),
    {
        let mut out: Vec<Event> = Vec::new();
        self.encode_into(&mut out);
        assert(signals_of(Seq::<Event>::empty()) =~= Seq::<Signal>::empty());
        assert(Seq::<Signal>::empty() + self.stream() =~= self.stream());
        out
    }

    /// Appends the events of this document to `out`.
    pub fn encode_into(&self, out: &mut Vec<Event>)
        ensures
            signals_of(final(out)@) == signals_of(old(out)@) + self.stream(),
    {
        encode_entries(&self.entries, out);
    }

    /// The entries, in stored order.
    pub fn entries(&self) -> (r: &Vec<(String, Value)>)
        ensures
            r@ == self.entries_spec(),
    {
        &self.entries
    }

    /// Builds a document from entries whose values are well formed. Fails
    /// with the first key, in order, that an earlier entry already has.
    pub fn from_entries(entries: Vec<(String, Value)>) -> (r: Result<Config, DecodeError>)
        requires
            entries_wf(entries@),
        ensures
            r is Ok <==> keys_unique(entries@),
            match r {
                Ok(c) => c@ == map_of(entries@) && c.entries_spec() == entries@ && c.wf(),
                Err(e) => exists|j: int|
                    0 <= j < entries@.len() && e@ == Fault::DuplicateKey(entries@[j].0@)
                        && keys_unique(entries@.take(j)) && has_key_spec(
                        entries@.take(j),
                        entries@[j].0@,
                    ),
            },
    {
        let mut j: usize = 0;
        while j < entries.len()
            invariant
                j <= entries.len(),
                keys_unique(entries@.take(j as int)),
            decreases entries.len() - j,
        {
            if has_key(&entries, j, &entries[j].0) {
                proof {
                    let k = entries@[j as int].0@;
                    let i = choose|i: int| 0 <= i < j && entries@.take(j as int)[i].0@ == k;
                    assert(entries@[i].0@ == entries@[j as int].0@);
                }
                return Err(DecodeError::DuplicateKey(entries[j].0.clone()));
            }
            proof {
                let next = entries@.take(j + 1);
                assert forall|a: int, b: int| 0 <= a < b < j + 1 implies #[trigger] next[a].0@
                    != #[trigger] next[b].0@ by {
                    if b == j {
                        assert(entries@.take(j as int)[a].0@ != entries@[j as int].0@);
                    } else {
                        assert(entries@.take(j as int)[a].0@ != entries@.take(j as int)[b].0@);
                    }
                }
            }
            j += 1;
        }
        assert(entries@.take(entries.len() as int) =~= entries@);
        Ok(Config { entries })
    }
}

impl From<Config> for Value {
    fn from(c: Config) -> (r: Value) {
        Value::Dict(c.entries)
    }
}

impl vstd::std_specs::convert::FromSpecImpl<Config> for Value {
    open spec fn obeys_from_spec() -> bool {
        true
    }

    closed spec fn from_spec(c: Config) -> Value {
        Value::Dict(c.entries)
    }
}

impl Config {
    /// A document becomes the dictionary it holds, with its entries unchanged.
    pub proof fn lemma_into_value(c: Config)
        ensures
            <Value as vstd::std_specs::convert::FromSpec<Config>>::from_spec(c) is Dict,
            <Value as vstd::std_specs::convert::FromSpec<Config>>::from_spec(
                c,
            )->Dict_0@ == c.entries_spec(),
    {
    }
}

} // verus!
