use vstd::prelude::*;

use crate::event::{signals_of, Event, Signal};
use crate::value::{
    all_wf, entries_wf, has_key, keys_unique, lemma_entries_push, lemma_trees_push, map_of,
    trees_of, Shape, Tree, Value,
};

verus! {

/// Why events could not be decoded.
#[derive(Debug)]
pub enum DecodeError {
    /// A mapping names the same key twice.
    DuplicateKey(String),
    /// A document had to be a mapping and was not.
    NotAMap(Shape),
    /// The events do not form exactly one value.
    Malformed,
}

/// The meaning of a decoding error.
pub enum Fault {
    DuplicateKey(Seq<char>),
    NotAMap(Shape),
    Malformed,
}

impl View for DecodeError {
    type V = Fault;

    open spec fn view(&self) -> Fault {
        match self {
            DecodeError::DuplicateKey(k) => Fault::DuplicateKey(k@),
            DecodeError::NotAMap(s) => Fault::NotAMap(*s),
            DecodeError::Malformed => Fault::Malformed,
        }
    }
}

/// Reads one value starting at `pos`: its meaning and the position after it.
/// Size hints never change the result.
pub open spec fn parse_value(ev: Seq<Signal>, pos: int) -> Result<(Tree, int), Fault>
    decreases ev.len() - pos, 0int,
{
    if pos < 0 || pos >= ev.len() {
        Err(Fault::Malformed)
    } else {
        match ev[pos] {
            Signal::Scalar(s) => Ok((Tree::Text(s), pos + 1)),
            Signal::SeqStart(_) => parse_items(ev, pos + 1, Seq::empty()),
            Signal::MapStart(_) => parse_entries(ev, pos + 1, Map::empty()),
            Signal::End => Err(Fault::Malformed),
        }
    }
}

/// Reads the rest of a list whose elements so far are `acc`, up to its `End`.
pub open spec fn parse_items(ev: Seq<Signal>, pos: int, acc: Seq<Tree>) -> Result<
    (Tree, int),
    Fault,
>
    decreases ev.len() - pos, 1int,
{
    if pos < 0 || pos >= ev.len() {
        Err(Fault::Malformed)
    } else if ev[pos] is End {
        Ok((Tree::Items(acc), pos + 1))
    } else {
        match parse_value(ev, pos) {
            Err(e) => Err(e),
            Ok((t, next)) => if next <= pos || next > ev.len() {
                Err(Fault::Malformed)
            } else {
                parse_items(ev, next, acc.push(t))
            },
        }
    }
}

/// Reads the rest of a mapping whose entries so far are `acc`, up to its
/// `End`. Each entry is a scalar key and a value; a key already in `acc`
/// fails as soon as its value has been read.
pub open spec fn parse_entries(ev: Seq<Signal>, pos: int, acc: Map<Seq<char>, Tree>) -> Result<
    (Tree, int),
    Fault,
>
    decreases ev.len() - pos, 1int,
{
    if pos < 0 || pos >= ev.len() {
        Err(Fault::Malformed)
    } else {
        match ev[pos] {
            Signal::End => Ok((Tree::Entries(acc), pos + 1)),
            Signal::Scalar(k) => match parse_value(ev, pos + 1) {
                Err(e) => Err(e),
                Ok((t, next)) => if next <= pos || next > ev.len() {
                    Err(Fault::Malformed)
                } else if acc.contains_key(k) {
                    Err(Fault::DuplicateKey(k))
                } else {
                    parse_entries(ev, next, acc.insert(k, t))
                },
            },
            _ => Err(Fault::Malformed),
        }
    }
}

/// The meaning of a whole event stream: exactly one value.
pub open spec fn parse_tree(ev: Seq<Signal>) -> Result<Tree, Fault> {
    match parse_value(ev, 0) {
        Err(e) => Err(e),
        Ok((t, next)) => if next == ev.len() {
            Ok(t)
        } else {
            Err(Fault::Malformed)
        },
    }
}

/// The meaning of a whole event stream as a document: one value, which must
/// be a mapping.
pub open spec fn parse_config(ev: Seq<Signal>) -> Result<Map<Seq<char>, Tree>, Fault> {
    match parse_tree(ev) {
        Err(e) => Err(e),
        Ok(Tree::Entries(m)) => Ok(m),
        Ok(Tree::Items(_)) => Err(Fault::NotAMap(Shape::List)),
        Ok(Tree::Text(_)) => Err(Fault::NotAMap(Shape::String)),
    }
}

/// A size hint, trusted no further than the events that remain.
fn capacity_for(hint: Option<usize>, remaining: usize) -> (r: usize)
    ensures
        r <= remaining,
{
    match hint {
        Some(h) => if h < remaining {
            h
        } else {
            remaining
        },
        None => 0,
    }
}

fn decode_at(ev: &Vec<Event>, pos: usize) -> (r: Result<(Value, usize), DecodeError>)
    requires
        pos <= ev.len(),
    ensures
        match r {
            Ok((v, next)) => parse_value(signals_of(ev@), pos as int) == Ok::<(Tree, int), Fault>((v@, next as int))
                && v.wf() && pos < next <= ev.len(),
            Err(e) => parse_value(signals_of(ev@), pos as int) == Err::<(Tree, int), Fault>(e@),
        },
    decreases ev.len() - pos, 0int,
{
    if pos >= ev.len() {
        return Err(DecodeError::Malformed);
    }
    match &ev[pos] {
        Event::Scalar(s) => Ok((Value::String(s.clone()), pos + 1)),
        Event::SeqStart(h) => decode_list(ev, pos + 1, capacity_for(*h, ev.len() - pos)),
        Event::MapStart(h) => decode_dict(ev, pos + 1, capacity_for(*h, ev.len() - pos)),
        Event::End => Err(DecodeError::Malformed),
    }
}

fn decode_list(ev: &Vec<Event>, pos: usize, cap: usize) -> (r: Result<(Value, usize), DecodeError>)
    requires
        pos <= ev.len(),
    ensures
        match r {
            Ok((v, next)) => parse_items(signals_of(ev@), pos as int, Seq::empty()) == Ok::<
                (Tree, int),
                Fault,
            >((v@, next as int)) && v.wf() && pos < next <= ev.len(),
            Err(e) => parse_items(signals_of(ev@), pos as int, Seq::empty()) == Err::<
                (Tree, int),
                Fault,
            >(e@),
        },
    decreases ev.len() - pos, 1int,
{
    let ghost sig = signals_of(ev@);
    let mut acc: Vec<Value> = Vec::with_capacity(cap);
    let mut cur = pos;
    assert(trees_of(acc@) =~= Seq::<Tree>::empty());
    loop
        invariant
            sig == signals_of(ev@),
            pos <= cur <= ev.len(),
            all_wf(acc@),
            parse_items(sig, pos as int, Seq::empty()) == parse_items(
                sig,
                cur as int,
                trees_of(acc@),
            ),
        decreases ev.len() - cur,
    {
        if cur >= ev.len() {
            return Err(DecodeError::Malformed);
        }
        if let Event::End = &ev[cur] {
            return Ok((Value::List(acc), cur + 1));
        }
        match decode_at(ev, cur) {
            Err(e) => {
                return Err(e);
            },
            Ok((v, next)) => {
                proof {
                    lemma_trees_push(acc@, v);
                }
                acc.push(v);
                cur = next;
            },
        }
    }
}

fn decode_dict(ev: &Vec<Event>, pos: usize, cap: usize) -> (r: Result<(Value, usize), DecodeError>)
    requires
        pos <= ev.len(),
    ensures
        match r {
            Ok((v, next)) => parse_entries(signals_of(ev@), pos as int, Map::empty()) == Ok::<
                (Tree, int),
                Fault,
            >((v@, next as int)) && v.wf() && pos < next <= ev.len(),
            Err(e) => parse_entries(signals_of(ev@), pos as int, Map::empty()) == Err::<
                (Tree, int),
                Fault,
            >(e@),
        },
    decreases ev.len() - pos, 1int,
{
    let ghost sig = signals_of(ev@);
    let mut acc: Vec<(String, Value)> = Vec::with_capacity(cap);
    let mut cur = pos;
    assert(map_of(acc@) =~= Map::<Seq<char>, Tree>::empty());
    loop
        invariant
            sig == signals_of(ev@),
            pos <= cur <= ev.len(),
            keys_unique(acc@),
            entries_wf(acc@),
            parse_entries(sig, pos as int, Map::empty()) == parse_entries(
                sig,
                cur as int,
                map_of(acc@),
            ),
        decreases ev.len() - cur,
    {
        if cur >= ev.len() {
            return Err(DecodeError::Malformed);
        }
        let key = match &ev[cur] {
            Event::End => {
                return Ok((Value::Dict(acc), cur + 1));
            },
            Event::Scalar(k) => k.clone(),
            _ => {
                return Err(DecodeError::Malformed);
            },
        };
        match decode_at(ev, cur + 1) {
            Err(e) => {
                return Err(e);
            },
            Ok((v, next)) => {
                if has_key(&acc, acc.len(), &key) {
                    return Err(DecodeError::DuplicateKey(key));
                }
                proof {
                    assert(acc@.take(acc@.len() as int) =~= acc@);
                    lemma_entries_push(acc@, (key, v));
                    assert forall|i: int, j: int| 0 <= i < j < acc@.len() + 1 implies acc@.push(
                        (key, v),
                    )[i].0@ != acc@.push((key, v))[j].0@ by {
                        if j == acc@.len() {
                            assert(acc@[i].0@ != key@);
                        }
                    }
                }
                acc.push((key, v));
                cur = next;
            },
        }
    }
}

impl Value {
    /// Builds the value that a stream of events describes. Fails on a
    /// mapping that repeats a key, at any depth, and on a stream that is not
    /// exactly one value.
    pub fn decode(events: &Vec<Event>) -> (r: Result<Value, DecodeError>)
        ensures
            match r {
                Ok(v) => parse_tree(signals_of(events@)) == Ok::<Tree, Fault>(v@) && v.wf(),
                Err(e) => parse_tree(signals_of(events@)) == Err::<Tree, Fault>(e@),
            },
    {
        match decode_at(events, 0) {
            Err(e) => Err(e),
            Ok((v, next)) => if next == events.len() {
                Ok(v)
            } else {
                Err(DecodeError::Malformed)
            },
        }
    }
}

} // verus!
