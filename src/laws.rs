use vstd::prelude::*;

use crate::config::Config;
use crate::decode::{parse_config, parse_entries, parse_items, parse_tree, parse_value, Fault};
use crate::event::{dict_stream, entries_stream, items_stream, Signal};
use crate::value::{
    all_wf, entries_wf, has_key_spec, keys_unique, lemma_map_of_keys, map_of, trees_of, Shape,
    Tree, Value,
};

verus! {

/// A value's events begin with a scalar or a start event, never with `End`.
proof fn lemma_stream_head(v: Value)
    ensures
        v.stream().len() >= 1,
        !(v.stream()[0] is End),
{
}

/// A piece of a piece of a stream is a piece of the stream.
proof fn lemma_piece(ev: Seq<Signal>, pos: int, whole: Seq<Signal>, off: int, part: Seq<Signal>)
    requires
        0 <= pos,
        pos + whole.len() <= ev.len(),
        ev.subrange(pos, pos + whole.len()) == whole,
        0 <= off,
        off + part.len() <= whole.len(),
        whole.subrange(off, off + part.len()) == part,
    ensures
        ev.subrange(pos + off, pos + off + part.len()) == part,
        forall|k: int| 0 <= k < part.len() ==> ev[pos + off + k] == part[k],
{
    assert forall|k: int| 0 <= k < part.len() implies ev[pos + off + k] == part[k] by {
        assert(ev.subrange(pos, pos + whole.len())[off + k] == whole[off + k]);
        assert(whole.subrange(off, off + part.len())[k] == part[k]);
    }
    assert(ev.subrange(pos + off, pos + off + part.len()) =~= part);
}

/// Reading a value's events, wherever they stand in a longer stream, gives
/// back its meaning and the position right after them.
proof fn lemma_parse_value(v: Value, ev: Seq<Signal>, pos: int)
    requires
        v.wf(),
        0 <= pos,
        pos + v.stream().len() <= ev.len(),
        ev.subrange(pos, pos + v.stream().len()) == v.stream(),
    ensures
        parse_value(ev, pos) == Ok::<(Tree, int), Fault>((v@, pos + v.stream().len())),
    decreases v,
{
    let n = v.stream().len();
    assert(ev[pos] == v.stream()[0]);
    match v {
        Value::String(s) => {},
        Value::List(l) => {
            let body = items_stream(l@);
            assert(v.stream() == seq![Signal::SeqStart(Some(l.len()))] + body + seq![Signal::End]);
            assert(v.stream().subrange(1, 1 + body.len() as int) =~= body);
            lemma_piece(ev, pos, v.stream(), 1, body);
            assert(decreases_to!(v => l));
            assert(decreases_to!(l => l@));
            lemma_parse_items(l@, ev, pos + 1, Seq::empty());
            assert(ev[pos + 1 + body.len()] == v.stream()[n - 1]);
            assert(Seq::<Tree>::empty() + trees_of(l@) =~= trees_of(l@));
        },
        Value::Dict(d) => {
            let body = entries_stream(d@);
            assert(v.stream() == seq![Signal::MapStart(Some(d.len()))] + body + seq![Signal::End]);
            assert(v.stream().subrange(1, 1 + body.len() as int) =~= body);
            lemma_piece(ev, pos, v.stream(), 1, body);
            assert(decreases_to!(v => d));
            assert(decreases_to!(d => d@));
            lemma_parse_entries(d@, ev, pos + 1, Map::empty());
            assert(ev[pos + 1 + body.len()] == v.stream()[n - 1]);
            assert(Map::<Seq<char>, Tree>::empty().union_prefer_right(map_of(d@)) =~= map_of(
                d@,
            ));
        },
    }
}

/// Reading the events of list elements `l` inside a list adds their meanings
/// to what was read so far.
proof fn lemma_parse_items(l: Seq<Value>, ev: Seq<Signal>, pos: int, acc: Seq<Tree>)
    requires
        all_wf(l),
        0 <= pos,
        pos + items_stream(l).len() <= ev.len(),
        ev.subrange(pos, pos + items_stream(l).len()) == items_stream(l),
    ensures
        parse_items(ev, pos, acc) == parse_items(
            ev,
            pos + items_stream(l).len(),
            acc + trees_of(l),
        ),
    decreases l,
{
    if l.len() == 0 {
        assert(acc + trees_of(l) =~= acc);
    } else {
        let p = l.drop_last();
        let x = l.last();
        let head = items_stream(p);
        let xs = x.stream();
        assert(items_stream(l) == head + xs);
        assert(items_stream(l).subrange(0, head.len() as int) =~= head);
        lemma_piece(ev, pos, items_stream(l), 0, head);
        assert(items_stream(l).subrange(head.len() as int, (head.len() + xs.len()) as int) =~= xs);
        lemma_piece(ev, pos, items_stream(l), head.len() as int, xs);
        lemma_parse_items(p, ev, pos, acc);
        let q = pos + head.len();
        assert(decreases_to!(l => l[l.len() - 1]));
        lemma_parse_value(x, ev, q);
        lemma_stream_head(x);
        assert(ev[q] == xs[0]);
        assert((acc + trees_of(p)).push(x@) =~= acc + trees_of(l));
    }
}

/// Reading the events of entries `d`, whose keys are unique and new to what
/// was read so far, adds them to it.
proof fn lemma_parse_entries(
    d: Seq<(String, Value)>,
    ev: Seq<Signal>,
    pos: int,
    acc: Map<Seq<char>, Tree>,
)
    requires
        entries_wf(d),
        keys_unique(d),
        forall|i: int| 0 <= i < d.len() ==> !acc.contains_key(#[trigger] d[i].0@),
        0 <= pos,
        pos + entries_stream(d).len() <= ev.len(),
        ev.subrange(pos, pos + entries_stream(d).len()) == entries_stream(d),
    ensures
        parse_entries(ev, pos, acc) == parse_entries(
            ev,
            pos + entries_stream(d).len(),
            acc.union_prefer_right(map_of(d)),
        ),
    decreases d,
{
    if d.len() == 0 {
        assert(acc.union_prefer_right(map_of(d)) =~= acc);
    } else {
        let p = d.drop_last();
        let e = d.last();
        let head = entries_stream(p);
        let vs = e.1.stream();
        let whole = entries_stream(d);
        assert(whole == head + seq![Signal::Scalar(e.0@)] + vs);
        assert(whole.subrange(0, head.len() as int) =~= head);
        lemma_piece(ev, pos, whole, 0, head);
        assert(whole.subrange(head.len() as int, head.len() + 1int) =~= seq![Signal::Scalar(e.0@)]);
        lemma_piece(ev, pos, whole, head.len() as int, seq![Signal::Scalar(e.0@)]);
        assert(whole.subrange(head.len() + 1int, head.len() + 1int + vs.len()) =~= vs);
        lemma_piece(ev, pos, whole, head.len() + 1int, vs);
        assert forall|i: int| 0 <= i < p.len() implies !acc.contains_key(#[trigger] p[i].0@) by {
            assert(p[i] == d[i]);
        }
        assert forall|i: int, j: int| 0 <= i < j < p.len() implies p[i].0@ != p[j].0@ by {
            assert(p[i] == d[i] && p[j] == d[j]);
        }
        lemma_parse_entries(p, ev, pos, acc);
        let q = pos + head.len();
        let key_event = seq![Signal::Scalar(e.0@)];
        assert(key_event[0] == Signal::Scalar(e.0@));
        assert(ev[pos + head.len() + 0] == key_event[0]);
        assert(decreases_to!(d => d[d.len() - 1]));
        lemma_parse_value(e.1, ev, q + 1);
        let before = acc.union_prefer_right(map_of(p));
        lemma_map_of_keys(p, e.0@);
        if has_key_spec(p, e.0@) {
            let i = choose|i: int| 0 <= i < p.len() && p[i].0@ == e.0@;
            assert(d[i].0@ == d[d.len() - 1].0@);
        }
        assert(!acc.contains_key(d[d.len() - 1].0@));
        assert(!before.contains_key(e.0@));
        assert(before.insert(e.0@, e.1@) =~= acc.union_prefer_right(map_of(d)));
    }
}

/// Round trip: the events that a value with unique keys at every depth
/// produces decode back to a value with the same meaning.
pub proof fn round_trip(v: Value)
    requires
        v.wf(),
    ensures
        parse_tree(v.stream()) == Ok::<Tree, Fault>(v@),
{
    assert(v.stream().subrange(0, v.stream().len() as int) =~= v.stream());
    lemma_parse_value(v, v.stream(), 0);
}

/// The events of a dictionary with unique keys at every depth decode to
/// the map of its entries.
proof fn lemma_dict_round_trip(d: Seq<(String, Value)>)
    requires
        keys_unique(d),
        entries_wf(d),
    ensures
        parse_tree(dict_stream(d)) == Ok::<Tree, Fault>(Tree::Entries(map_of(d))),
{
    let ev = dict_stream(d);
    let body = entries_stream(d);
    let n: int = body.len() as int;
    assert(ev.subrange(1, 1 + n) =~= body);
    lemma_parse_entries(d, ev, 1, Map::empty());
    assert(Map::<Seq<char>, Tree>::empty().union_prefer_right(map_of(d)) =~= map_of(d));
    assert(ev[1 + n] is End);
}

/// Round trip for documents: the events of a document decode back to a
/// document with the same entries.
pub proof fn config_round_trip(c: Config)
    requires
        c.wf(),
    ensures
        parse_config(c.stream()) == Ok::<Map<Seq<char>, Tree>, Fault>(c@),
{
    c.lemma_unfold();
    lemma_dict_round_trip(c.entries_spec());
}

/// A document must be a mapping: the events of a list or of a text value,
/// however well formed, are refused and the shape found is named.
pub proof fn non_map_rejected(v: Value)
    requires
        v.wf(),
    ensures
        v is List ==> parse_config(v.stream()) == Err::<Map<Seq<char>, Tree>, Fault>(
            Fault::NotAMap(Shape::List),
        ),
        v is String ==> parse_config(v.stream()) == Err::<Map<Seq<char>, Tree>, Fault>(
            Fault::NotAMap(Shape::String),
        ),
{
    round_trip(v);
}

/// Every element of a list of well-formed values is well formed, and the
/// other way round.
proof fn lemma_all_wf_index(l: Seq<Value>)
    ensures
        all_wf(l) <==> forall|i: int| 0 <= i < l.len() ==> (#[trigger] l[i]).wf(),
    decreases l.len(),
{
    if l.len() > 0 {
        let p = l.drop_last();
        lemma_all_wf_index(p);
        if all_wf(l) {
            assert forall|i: int| 0 <= i < l.len() implies (#[trigger] l[i]).wf() by {
                if i < p.len() {
                    assert(p[i] == l[i]);
                }
            }
        }
        if forall|i: int| 0 <= i < l.len() ==> (#[trigger] l[i]).wf() {
            assert forall|i: int| 0 <= i < p.len() implies (#[trigger] p[i]).wf() by {
                assert(p[i] == l[i]);
            }
            assert(l[l.len() - 1].wf());
        }
    }
}

/// The value of every entry is well formed, and the other way round.
proof fn lemma_entries_wf_index(d: Seq<(String, Value)>)
    ensures
        entries_wf(d) <==> forall|i: int| 0 <= i < d.len() ==> (#[trigger] d[i]).1.wf(),
    decreases d.len(),
{
    if d.len() > 0 {
        let p = d.drop_last();
        lemma_entries_wf_index(p);
        if entries_wf(d) {
            assert forall|i: int| 0 <= i < d.len() implies (#[trigger] d[i]).1.wf() by {
                if i < p.len() {
                    assert(p[i] == d[i]);
                }
            }
        }
        if forall|i: int| 0 <= i < d.len() ==> (#[trigger] d[i]).1.wf() {
            assert forall|i: int| 0 <= i < p.len() implies (#[trigger] p[i]).1.wf() by {
                assert(p[i] == d[i]);
            }
            assert(d[d.len() - 1].1.wf());
        }
    }
}

/// The events of the first `k` entries begin the events of all of them.
proof fn lemma_entries_prefix(d: Seq<(String, Value)>, k: int)
    requires
        0 <= k <= d.len(),
    ensures
        entries_stream(d.take(k)).len() <= entries_stream(d).len(),
        entries_stream(d).subrange(0, entries_stream(d.take(k)).len() as int) == entries_stream(
            d.take(k),
        ),
    decreases d.len(),
{
    if k == d.len() {
        assert(d.take(k) =~= d);
        assert(entries_stream(d).subrange(0, entries_stream(d).len() as int) =~= entries_stream(
            d,
        ));
    } else {
        let p = d.drop_last();
        assert(d.take(k) =~= p.take(k));
        lemma_entries_prefix(p, k);
        let n = entries_stream(d.take(k)).len() as int;
        assert(entries_stream(d).subrange(0, n) =~= entries_stream(p).subrange(0, n));
    }
}

/// Duplicate keys are refused: in the events of a mapping whose entries
/// repeat a key, the first entry, in order, whose key an earlier entry
/// already has makes decoding fail, naming that key, whatever follows it.
pub proof fn first_duplicate_rejected(d: Seq<(String, Value)>, j: int)
    requires
        entries_wf(d),
        0 <= j < d.len(),
        keys_unique(d.take(j)),
        has_key_spec(d.take(j), d[j].0@),
    ensures
        parse_tree(dict_stream(d)) == Err::<Tree, Fault>(Fault::DuplicateKey(d[j].0@)),
        parse_config(dict_stream(d)) == Err::<Map<Seq<char>, Tree>, Fault>(
            Fault::DuplicateKey(d[j].0@),
        ),
{
    let ev = dict_stream(d);
    let all = entries_stream(d);
    let pre = d.take(j);
    let t = d.take(j + 1);
    let k = d[j].0@;
    let vs = d[j].1.stream();
    let head = entries_stream(pre);
    let key_event = seq![Signal::Scalar(k)];
    // Where the entries' events stand in the stream.
    assert(ev.subrange(1, 1 + all.len() as int) =~= all);
    lemma_entries_prefix(d, j + 1);
    lemma_piece(ev, 1, all, 0, entries_stream(t));
    assert(t.drop_last() =~= pre);
    assert(entries_stream(t) == head + key_event + vs);
    let whole = entries_stream(t);
    assert(whole.subrange(0, head.len() as int) =~= head);
    lemma_piece(ev, 1, whole, 0, head);
    assert(whole.subrange(head.len() as int, head.len() + 1int) =~= key_event);
    lemma_piece(ev, 1, whole, head.len() as int, key_event);
    assert(whole.subrange(head.len() + 1int, head.len() + 1int + vs.len()) =~= vs);
    lemma_piece(ev, 1, whole, head.len() + 1int, vs);
    // The entries before the first repeat read as usual.
    lemma_entries_wf_index(d);
    lemma_entries_wf_index(pre);
    lemma_parse_entries(pre, ev, 1, Map::empty());
    assert(Map::<Seq<char>, Tree>::empty().union_prefer_right(map_of(pre)) =~= map_of(pre));
    // Then the repeated key and its value.
    let q: int = 1 + head.len() as int;
    assert(key_event[0] == Signal::Scalar(k));
    assert(ev[q + 0] == key_event[0]);
    lemma_parse_value(d[j].1, ev, q + 1);
    lemma_map_of_keys(pre, k);
}

/// The meaning of each element of a list is that of the value at the same
/// place.
proof fn lemma_trees_index(l: Seq<Value>)
    ensures
        trees_of(l).len() == l.len(),
        forall|i: int| 0 <= i < l.len() ==> trees_of(l)[i] == (#[trigger] l[i])@,
    decreases l.len(),
{
    if l.len() > 0 {
        let p = l.drop_last();
        lemma_trees_index(p);
        assert(trees_of(l) == trees_of(p).push(l.last()@));
        assert forall|i: int| 0 <= i < l.len() implies trees_of(l)[i] == (#[trigger] l[i])@ by {
            if i < p.len() {
                assert(p[i] == l[i]);
            }
        }
    }
}

/// Lists keep their order: the events of a list decode to as many elements,
/// each with the meaning of the element at the same place.
pub proof fn list_order_kept(v: Value)
    requires
        v is List,
        v.wf(),
    ensures
        parse_tree(v.stream()) is Ok,
        parse_tree(v.stream())->Ok_0 is Items,
        parse_tree(v.stream())->Ok_0->Items_0.len() == v->List_0@.len(),
        forall|i: int|
            0 <= i < v->List_0@.len() ==> parse_tree(v.stream())->Ok_0->Items_0[i] == (
            #[trigger] v->List_0@[i])@,
{
    round_trip(v);
    lemma_trees_index(v->List_0@);
}

/// Empty containers: an empty mapping and an empty list decode, whatever
/// size they announce, to an empty map and an empty list, which differ; as a
/// document the first is the empty document and the second is refused.
pub proof fn empty_containers(map_hint: Option<usize>, list_hint: Option<usize>)
    ensures
        parse_tree(seq![Signal::MapStart(map_hint), Signal::End]) == Ok::<Tree, Fault>(
            Tree::Entries(Map::empty()),
        ),
        parse_tree(seq![Signal::SeqStart(list_hint), Signal::End]) == Ok::<Tree, Fault>(
            Tree::Items(Seq::empty()),
        ),
        Tree::Entries(Map::empty()) != Tree::Items(Seq::empty()),
        parse_config(seq![Signal::MapStart(map_hint), Signal::End]) == Ok::<
            Map<Seq<char>, Tree>,
            Fault,
        >(Map::empty()),
        parse_config(seq![Signal::SeqStart(list_hint), Signal::End]) == Err::<
            Map<Seq<char>, Tree>,
            Fault,
        >(Fault::NotAMap(Shape::List)),
{
    let m = seq![Signal::MapStart(map_hint), Signal::End];
    let l = seq![Signal::SeqStart(list_hint), Signal::End];
    assert(m[1] is End);
    assert(l[1] is End);
}

/// An event with its size hint, if any, left out.
pub open spec fn unhinted(s: Signal) -> Signal {
    match s {
        Signal::SeqStart(_) => Signal::SeqStart(None),
        Signal::MapStart(_) => Signal::MapStart(None),
        other => other,
    }
}

/// Two streams that differ at most in their size hints.
pub open spec fn same_but_hints(a: Seq<Signal>, b: Seq<Signal>) -> bool {
    a.len() == b.len() && forall|i: int| 0 <= i < a.len() ==> unhinted(a[i]) == unhinted(b[i])
}

proof fn lemma_hints_value(a: Seq<Signal>, b: Seq<Signal>, pos: int)
    requires
        same_but_hints(a, b),
    ensures
        parse_value(a, pos) == parse_value(b, pos),
    decreases a.len() - pos, 0int,
{
    if 0 <= pos < a.len() {
        assert(unhinted(a[pos]) == unhinted(b[pos]));
        match a[pos] {
            Signal::SeqStart(_) => lemma_hints_items(a, b, pos + 1, Seq::empty()),
            Signal::MapStart(_) => lemma_hints_entries(a, b, pos + 1, Map::empty()),
            _ => {},
        }
    }
}

proof fn lemma_hints_items(a: Seq<Signal>, b: Seq<Signal>, pos: int, acc: Seq<Tree>)
    requires
        same_but_hints(a, b),
    ensures
        parse_items(a, pos, acc) == parse_items(b, pos, acc),
    decreases a.len() - pos, 1int,
{
    if 0 <= pos < a.len() {
        assert(unhinted(a[pos]) == unhinted(b[pos]));
        if !(a[pos] is End) {
            lemma_hints_value(a, b, pos);
            if let Ok((t, next)) = parse_value(a, pos) {
                if pos < next <= a.len() {
                    lemma_hints_items(a, b, next, acc.push(t));
                }
            }
        }
    }
}

proof fn lemma_hints_entries(a: Seq<Signal>, b: Seq<Signal>, pos: int, acc: Map<Seq<char>, Tree>)
    requires
        same_but_hints(a, b),
    ensures
        parse_entries(a, pos, acc) == parse_entries(b, pos, acc),
    decreases a.len() - pos, 1int,
{
    if 0 <= pos < a.len() {
        assert(unhinted(a[pos]) == unhinted(b[pos]));
        if let Signal::Scalar(k) = a[pos] {
            lemma_hints_value(a, b, pos + 1);
            if let Ok((t, next)) = parse_value(a, pos + 1) {
                if pos < next <= a.len() && !acc.contains_key(k) {
                    lemma_hints_entries(a, b, next, acc.insert(k, t));
                }
            }
        }
    }
}

/// Size hints never change what is decoded: two streams that differ only in
/// the sizes their start events announce, as different readers of one
/// document may, decode to the same result, as values and as documents.
pub proof fn hints_ignored(a: Seq<Signal>, b: Seq<Signal>)
    requires
        same_but_hints(a, b),
    ensures
        parse_tree(a) == parse_tree(b),
        parse_config(a) == parse_config(b),
{
    lemma_hints_value(a, b, 0);
}

/// In a map built from entries with unique keys, each entry's key maps to
/// the meaning of its value.
proof fn lemma_map_of_lookup(d: Seq<(String, Value)>, i: int)
    requires
        keys_unique(d),
        0 <= i < d.len(),
    ensures
        map_of(d).contains_key(d[i].0@),
        map_of(d)[d[i].0@] == d[i].1@,
    decreases d.len(),
{
    let p = d.drop_last();
    assert(map_of(d) == map_of(p).insert(d.last().0@, d.last().1@));
    if i < d.len() - 1 {
        assert forall|a: int, b: int| 0 <= a < b < p.len() implies p[a].0@ != p[b].0@ by {
            assert(p[a] == d[a] && p[b] == d[b]);
        }
        assert(p[i] == d[i]);
        lemma_map_of_lookup(p, i);
        assert(d[i].0@ != d[d.len() - 1].0@);
    }
}

/// Maps built from two sequences with unique keys that hold the same entries
/// are equal.
proof fn lemma_map_of_same_entries(d1: Seq<(String, Value)>, d2: Seq<(String, Value)>)
    requires
        keys_unique(d1),
        keys_unique(d2),
        forall|e: (String, Value)| d1.contains(e) ==> d2.contains(e),
        forall|e: (String, Value)| d2.contains(e) ==> d1.contains(e),
    ensures
        map_of(d1) == map_of(d2),
{
    assert forall|k: Seq<char>| #[trigger] map_of(d1).contains_key(k) implies map_of(
        d2,
    ).contains_key(k) && map_of(d1)[k] == map_of(d2)[k] by {
        lemma_map_of_keys(d1, k);
        let i = choose|i: int| 0 <= i < d1.len() && d1[i].0@ == k;
        assert(d2.contains(d1[i]));
        let j = choose|j: int| 0 <= j < d2.len() && d2[j] == d1[i];
        lemma_map_of_lookup(d1, i);
        lemma_map_of_lookup(d2, j);
    }
    assert forall|k: Seq<char>| #[trigger] map_of(d2).contains_key(k) implies map_of(
        d1,
    ).contains_key(k) by {
        lemma_map_of_keys(d2, k);
        let j = choose|j: int| 0 <= j < d2.len() && d2[j].0@ == k;
        assert(d1.contains(d2[j]));
        let i = choose|i: int| 0 <= i < d1.len() && d1[i] == d2[j];
        lemma_map_of_lookup(d1, i);
    }
    assert(map_of(d1) =~= map_of(d2));
}

/// Entry order does not count: the events of two mappings that hold the
/// same entries, with unique keys at every depth, in whatever order, decode
/// to the same document.
pub proof fn entry_order_ignored(d1: Seq<(String, Value)>, d2: Seq<(String, Value)>)
    requires
        keys_unique(d1),
        entries_wf(d1),
        keys_unique(d2),
        entries_wf(d2),
        forall|e: (String, Value)| d1.contains(e) <==> d2.contains(e),
    ensures
        parse_config(dict_stream(d1)) is Ok,
        parse_config(dict_stream(d1)) == parse_config(dict_stream(d2)),
{
    lemma_dict_round_trip(d1);
    lemma_dict_round_trip(d2);
    lemma_map_of_same_entries(d1, d2);
}

} // verus!
