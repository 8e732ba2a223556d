use vstd::prelude::*;

verus! {

/// What a value means: a text leaf, an ordered list, or a map from unique keys.
pub enum Tree {
    Text(Seq<char>),
    Items(Seq<Tree>),
    Entries(Map<Seq<char>, Tree>),
}

/// The value algebra: every scalar is text, lists keep their order, and a
/// dictionary holds its entries in the order they were built.
#[derive(Debug)]
pub enum Value {
    String(String),
    List(Vec<Value>),
    Dict(Vec<(String, Value)>),
}

/// Which shape a value has, where a mapping was required.
#[derive(Debug, Clone, Copy, PartialEq, Eq, Structural)]
pub enum Shape {
    List,
    String,
}

impl View for Value {
    type V = Tree;

    open spec fn view(&self) -> Tree
        decreases self,
    {
        match self {
            Value::String(s) => Tree::Text(s@),
            Value::List(l) => Tree::Items(trees_of(l@)),
            Value::Dict(d) => Tree::Entries(map_of(d@)),
        }
    }
}

/// The meanings of a sequence of values, in order.
pub open spec fn trees_of(s: Seq<Value>) -> Seq<Tree>
    decreases s,
{
    if s.len() == 0 {
        Seq::empty()
    } else {
        trees_of(s.drop_last()).push(s.last()@)
    }
}

/// The map that a sequence of entries stands for.
pub open spec fn map_of(d: Seq<(String, Value)>) -> Map<Seq<char>, Tree>
    decreases d,
{
    if d.len() == 0 {
        Map::empty()
    } else {
        map_of(d.drop_last()).insert(d.last().0@, d.last().1@)
    }
}

/// No two entries share a key.
pub open spec fn keys_unique(d: Seq<(String, Value)>) -> bool {
    forall|i: int, j: int| 0 <= i < j < d.len() ==> d[i].0@ != d[j].0@
}

/// Some entry has key `k`.
pub open spec fn has_key_spec(d: Seq<(String, Value)>, k: Seq<char>) -> bool {
    exists|i: int| 0 <= i < d.len() && d[i].0@ == k
}

impl Value {
    /// Every dictionary in the tree, at any depth, has unique keys.
    pub open spec fn wf(&self) -> bool
        decreases self,
    {
        match self {
            Value::String(_) => true,
            Value::List(l) => all_wf(l@),
            Value::Dict(d) => keys_unique(d@) && entries_wf(d@),
        }
    }
}

pub open spec fn all_wf(s: Seq<Value>) -> bool
    decreases s,
{
    if s.len() == 0 {
        true
    } else {
        all_wf(s.drop_last()) && s.last().wf()
    }
}

pub open spec fn entries_wf(d: Seq<(String, Value)>) -> bool
    decreases d,
{
    if d.len() == 0 {
        true
    } else {
        entries_wf(d.drop_last()) && d.last().1.wf()
    }
}

pub proof fn lemma_trees_push(s: Seq<Value>, x: Value)
    ensures
        trees_of(s.push(x)) == trees_of(s).push(x@),
        all_wf(s.push(x)) == (all_wf(s) && x.wf()),
{
    assert(s.push(x).drop_last() =~= s);
}

pub proof fn lemma_entries_push(d: Seq<(String, Value)>, e: (String, Value))
    ensures
        map_of(d.push(e)) == map_of(d).insert(e.0@, e.1@),
        entries_wf(d.push(e)) == (entries_wf(d) && e.1.wf()),
{
    assert(d.push(e).drop_last() =~= d);
}

/// The keys of `map_of(d)` are exactly the keys of the entries.
pub proof fn lemma_map_of_keys(d: Seq<(String, Value)>, k: Seq<char>)
    ensures
        map_of(d).contains_key(k) == has_key_spec(d, k),
    decreases d.len(),
{
    if d.len() > 0 {
        let p = d.drop_last();
        lemma_map_of_keys(p, k);
        assert(map_of(d) == map_of(p).insert(d.last().0@, d.last().1@));
        if d.last().0@ == k {
            assert(d[d.len() - 1].0@ == k);
        }
        if has_key_spec(p, k) {
            let i = choose|i: int| 0 <= i < p.len() && p[i].0@ == k;
            assert(d[i].0@ == k);
        }
        if has_key_spec(d, k) && d.last().0@ != k {
            let i = choose|i: int| 0 <= i < d.len() && d[i].0@ == k;
            assert(p[i].0@ == k);
        }
    }
}

/// Whether one of the first `n` entries of `d` has key `k`.
pub fn has_key(d: &Vec<(String, Value)>, n: usize, k: &String) -> (r: bool)
    requires
        n <= d.len(),
    ensures
        r == has_key_spec(d@.take(n as int), k@),
        n == d.len() ==> r == map_of(d@).contains_key(k@),
{
    proof {
        lemma_map_of_keys(d@, k@);
        assert(d@.take(d.len() as int) =~= d@);
    }
    let mut i: usize = 0;
    while i < n
        invariant
            i <= n <= d.len(),
            n == d.len() ==> map_of(d@).contains_key(k@) == has_key_spec(d@.take(n as int), k@),
            forall|j: int| 0 <= j < i ==> d@[j].0@ != k@,
        decreases n - i,
    {
        if d[i].0 == *k {
            assert(d@.take(n as int)[i as int].0@ == k@);
            return true;
        }
        i += 1;
    }
    assert forall|j: int| 0 <= j < n implies d@.take(n as int)[j].0@ != k@ by {
        assert(d@[j].0@ != k@);
    }
    false
}

impl From<String> for Value {
    fn from(s: String) -> (r: Value) {
        Value::String(s)
    }
}

impl vstd::std_specs::convert::FromSpecImpl<String> for Value {
    open spec fn obeys_from_spec() -> bool {
        true
    }

    open spec fn from_spec(s: String) -> Value {
        Value::String(s)
    }
}

impl From<Vec<Value>> for Value {
    fn from(items: Vec<Value>) -> (r: Value) {
        Value::List(items)
    }
}

impl vstd::std_specs::convert::FromSpecImpl<Vec<Value>> for Value {
    open spec fn obeys_from_spec() -> bool {
        true
    }

    open spec fn from_spec(items: Vec<Value>) -> Value {
        Value::List(items)
    }
}

} // verus!
