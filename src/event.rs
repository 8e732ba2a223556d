use vstd::prelude::*;

use crate::value::Value;

verus! {

/// One step of a structured document, as a format reader reports it or a
/// format writer takes it. A sequence or a mapping opens with a start event
/// that may carry the number of its elements or entries, and closes with
/// `End`. A mapping's body alternates a `Scalar` key and a value.
#[derive(Debug)]
pub enum Event {
    Scalar(String),
    SeqStart(Option<usize>),
    MapStart(Option<usize>),
    End,
}

/// The meaning of an event.
pub enum Signal {
    Scalar(Seq<char>),
    SeqStart(Option<usize>),
    MapStart(Option<usize>),
    End,
}

impl View for Event {
    type V = Signal;

    open spec fn view(&self) -> Signal {
        match self {
            Event::Scalar(s) => Signal::Scalar(s@),
            Event::SeqStart(h) => Signal::SeqStart(*h),
            Event::MapStart(h) => Signal::MapStart(*h),
            Event::End => Signal::End,
        }
    }
}

/// The meanings of a sequence of events.
pub open spec fn signals_of(s: Seq<Event>) -> Seq<Signal> {
    s.map_values(|e: Event| e@)
}

impl Value {
    /// The events that describe this value: a leaf is one scalar; a list and
    /// a dictionary open with their exact size, then hold their elements (or
    /// key and value of each entry) in stored order, then close.
    pub open spec fn stream(&self) -> Seq<Signal>
        decreases self,
    {
        match self {
            Value::String(s) => seq![Signal::Scalar(s@)],
            Value::List(l) => seq![Signal::SeqStart(Some(l.len()))] + items_stream(l@) + seq![
                Signal::End,
            ],
            Value::Dict(d) => seq![Signal::MapStart(Some(d.len()))] + entries_stream(d@) + seq![
                Signal::End,
            ],
        }
    }
}

/// The events of the elements of a list, one after the other.
pub open spec fn items_stream(s: Seq<Value>) -> Seq<Signal>
    decreases s,
{
    if s.len() == 0 {
        Seq::empty()
    } else {
        items_stream(s.drop_last()) + s.last().stream()
    }
}

/// The events of a dictionary with entries `d`.
pub open spec fn dict_stream(d: Seq<(String, Value)>) -> Seq<Signal> {
    seq![Signal::MapStart(Some(d.len() as usize))] + entries_stream(d) + seq![Signal::End]
}

/// The events of the entries of a dictionary: each key, then its value.
pub open spec fn entries_stream(d: Seq<(String, Value)>) -> Seq<Signal>
    decreases d,
{
    if d.len() == 0 {
        Seq::empty()
    } else {
        entries_stream(d.drop_last()) + seq![Signal::Scalar(d.last().0@)] + d.last().1.stream()
    }
}

pub proof fn lemma_signals_push(s: Seq<Event>, e: Event)
    ensures
        signals_of(s.push(e)) == signals_of(s).push(e@),
{
    assert(signals_of(s.push(e)) =~= signals_of(s).push(e@));
}

/// Copies a string into a scalar event.
fn scalar_of(s: &String) -> (r: Event)
    ensures
        r@ == Signal::Scalar(s@),
{
    Event::Scalar(s.clone())
}

impl Value {
    /// Appends the events of this value to `out`.
    pub fn encode_into(&self, out: &mut Vec<Event>)
        ensures
            signals_of(final(out)@) == signals_of(old(out)@) + self.stream(),
        decreases self,
    {
        match self {
            Value::String(s) => {
                proof {
                    lemma_signals_push(out@, Event::Scalar(*s));
                }
                out.push(scalar_of(s));
                assert(signals_of(out@) =~= signals_of(old(out)@) + self.stream());
            },
            Value::List(l) => {
                let ghost start = signals_of(out@);
                proof {
                    lemma_signals_push(out@, Event::SeqStart(Some(l.len())));
                }
                out.push(Event::SeqStart(Some(l.len())));
                let mut i: usize = 0;
                while i < l.len()
                    invariant
                        i <= l.len(),
                        *self is List,
                        self->List_0 == *l,
                        signals_of(out@) == start + seq![Signal::SeqStart(Some(l.len()))]
                            + items_stream(l@.take(i as int)),
                    decreases l.len() - i,
                {
                    assert(l@.take(i + 1).drop_last() =~= l@.take(i as int));
                    proof {
                        let v = self->List_0;
                        assert(decreases_to!(*self => v));
                        assert(decreases_to!(v => v@));
                        assert(decreases_to!(v@ => v@[i as int]));
                    }
                    l[i].encode_into(out);
                    i += 1;
                    assert(signals_of(out@) =~= start + seq![Signal::SeqStart(Some(l.len()))]
                        + items_stream(l@.take(i as int)));
                }
                proof {
                    lemma_signals_push(out@, Event::End);
                    assert(l@.take(l.len() as int) =~= l@);
                }
                out.push(Event::End);
                assert(signals_of(out@) =~= signals_of(old(out)@) + self.stream());
            },
            Value::Dict(d) => encode_entries(d, out),
        }
    }

    /// The events that describe this value, for a format writer.
    pub fn encode(&self) -> (r: Vec<Event>)
        ensures
            signals_of(r@) == self.stream(),
    {
        let mut out: Vec<Event> = Vec::new();
        self.encode_into(&mut out);
        assert(signals_of(Seq::<Event>::empty()) =~= Seq::<Signal>::empty());
        assert(Seq::<Signal>::empty() + self.stream() =~= self.stream());
        out
    }
}


/// Appends the events of a dictionary with entries `d` to `out`.
pub fn encode_entries(d: &Vec<(String, Value)>, out: &mut Vec<Event>)
    ensures
        signals_of(final(out)@) == signals_of(old(out)@) + dict_stream(d@),
    decreases d,
{
    let ghost start = signals_of(out@);
    proof {
        lemma_signals_push(out@, Event::MapStart(Some(d.len())));
    }
    out.push(Event::MapStart(Some(d.len())));
    let mut i: usize = 0;
    while i < d.len()
        invariant
            i <= d.len(),
            signals_of(out@) == start + seq![Signal::MapStart(Some(d.len()))]
                + entries_stream(d@.take(i as int)),
        decreases d.len() - i,
    {
        assert(d@.take(i + 1).drop_last() =~= d@.take(i as int));
        proof {
            lemma_signals_push(out@, Event::Scalar(d@[i as int].0));
        }
        out.push(scalar_of(&d[i].0));
        let ghost mid = signals_of(out@);
        assert(mid =~= start + seq![Signal::MapStart(Some(d.len()))]
            + entries_stream(d@.take(i as int)) + seq![Signal::Scalar(d@[i as int].0@)]);
        proof {
            let v = *d;
            assert(decreases_to!(v => v@));
            assert(decreases_to!(v@ => v@[i as int]));
            assert(decreases_to!(v@[i as int] => v@[i as int].1));
        }
        d[i].1.encode_into(out);
        i += 1;
        assert(signals_of(out@) =~= start + seq![Signal::MapStart(Some(d.len()))]
            + entries_stream(d@.take(i as int)));
    }
    proof {
        lemma_signals_push(out@, Event::End);
        assert(d@.take(d.len() as int) =~= d@);
    }
    out.push(Event::End);
    assert(signals_of(out@) =~= signals_of(old(out)@) + dict_stream(d@));
}

} // verus!
