//! A sample: labelled temperature readings in the order they were taken.
use vstd::prelude::*;
use indexmap::IndexMap;

verus! {

#[verifier::external_type_specification]
#[verifier::external_body]
#[verifier::reject_recursive_types(K)]
#[verifier::reject_recursive_types(V)]
#[verifier::reject_recursive_types(S)]
pub struct ExIndexMap<K, V, S>(IndexMap<K, V, S>);

/// The entries of an insertion-ordered map, in their order.
pub uninterp spec fn map_entries(m: IndexMap<String, i64>) -> Seq<(Seq<char>, i64)>;

/// Position of the first entry whose label is `key`.
pub open spec fn find_label(e: Seq<(Seq<char>, i64)>, key: Seq<char>) -> Option<int>
    decreases e.len(),
{
    if e.len() == 0 {
        None
    } else {
        match find_label(e.drop_last(), key) {
            Some(j) => Some(j),
            None => if e.last().0 == key {
                Some(e.len() - 1)
            } else {
                None
            },
        }
    }
}

/// `e` after inserting `v` under `key`: a present label keeps its place and
/// takes the new value, an absent one goes last.
pub open spec fn insert_entry(e: Seq<(Seq<char>, i64)>, key: Seq<char>, v: i64) -> Seq<(Seq<char>, i64)> {
    match find_label(e, key) {
        Some(j) => e.update(j, (key, v)),
        None => e.push((key, v)),
    }
}

pub open spec fn labels_unique(e: Seq<(Seq<char>, i64)>) -> bool {
    forall|i: int, j: int| 0 <= i < j < e.len() ==> e[i].0 != e[j].0
}

/// Relies on `IndexMap::new`: a new map has no entries.
#[verifier::external_body]
fn map_new() -> (r: IndexMap<String, i64>)
    ensures
        map_entries(r) == Seq::<(Seq<char>, i64)>::empty(),
{
    IndexMap::new()
}

/// Relies on `IndexMap::insert`: an equal key keeps its place and takes the
/// new value; a new key goes last.
#[verifier::external_body]
fn map_insert(m: &mut IndexMap<String, i64>, key: String, v: i64)
    ensures
        map_entries(*final(m)) == insert_entry(map_entries(*old(m)), key@, v),
{
    m.insert(key, v);
}

/// Relies on `IndexMap::get`: the value stored under an equal key.
#[verifier::external_body]
fn map_get(m: &IndexMap<String, i64>, key: &str) -> (r: Option<i64>)
    ensures
        match find_label(map_entries(*m), key@) {
            Some(j) => r == Some(map_entries(*m)[j].1),
            None => r is None,
        },
{
    m.get(key).copied()
}

/// Relies on `IndexMap::len`: the number of entries.
#[verifier::external_body]
fn map_len(m: &IndexMap<String, i64>) -> (r: usize)
    ensures
        r == map_entries(*m).len(),
{
    m.len()
}

/// Relies on `IndexMap::get_index`: the entry at a position in insertion order.
#[verifier::external_body]
fn map_get_index(m: &IndexMap<String, i64>, i: usize) -> (r: (String, i64))
    requires
        i < map_entries(*m).len(),
    ensures
        r.0@ == map_entries(*m)[i as int].0,
        r.1 == map_entries(*m)[i as int].1,
{
    let (k, v) = m.get_index(i).unwrap();
    (k.clone(), *v)
}

pub proof fn lemma_find_label(e: Seq<(Seq<char>, i64)>, key: Seq<char>)
    ensures
        match find_label(e, key) {
            Some(j) => 0 <= j < e.len() && e[j].0 == key && forall|i: int|
                0 <= i < j ==> #[trigger] e[i].0 != key,
            None => forall|i: int| 0 <= i < e.len() ==> #[trigger] e[i].0 != key,
        },
    decreases e.len(),
{
    if e.len() > 0 {
        lemma_find_label(e.drop_last(), key);
        assert forall|i: int| 0 <= i < e.len() - 1 implies #[trigger] e[i] == e.drop_last()[i] by {}
    }
}

/// A sample of labelled readings in thousandths of a degree Celsius, each
/// label at most once, in insertion order.
pub struct Sample {
    map: IndexMap<String, i64>,
}

impl View for Sample {
    type V = Seq<(Seq<char>, i64)>;

    closed spec fn view(&self) -> Seq<(Seq<char>, i64)> {
        map_entries(self.map)
    }
}

impl Sample {
    pub open spec fn wf(&self) -> bool {
        labels_unique(self@)
    }

    /// An empty sample.
    pub fn new() -> (r: Sample)
        ensures
            r@ == Seq::<(Seq<char>, i64)>::empty(),
            r.wf(),
    {
        Sample { map: map_new() }
    }

    /// Records `v` under `label`, in place where the label is already there,
    /// else last.
    pub fn insert(&mut self, label: String, v: i64)
        requires
            old(self).wf(),
        ensures
            final(self)@ == insert_entry(old(self)@, label@, v),
            final(self).wf(),
    {
        proof {
            lemma_find_label(self@, label@);
        }
        let ghost e = self@;
        map_insert(&mut self.map, label, v);
        proof {
            lemma_find_label(e, label@);
        }
    }

    /// The reading under `label`, if there is one.
    pub fn get(&self, label: &str) -> (r: Option<i64>)
        ensures
            match find_label(self@, label@) {
                Some(j) => r == Some(self@[j].1),
                None => r is None,
            },
    {
        map_get(&self.map, label)
    }

    /// The number of readings.
    pub fn len(&self) -> (r: usize)
        ensures
            r == self@.len(),
    {
        map_len(&self.map)
    }

    pub fn is_empty(&self) -> (r: bool)
        ensures
            r == (self@.len() == 0),
    {
        map_len(&self.map) == 0
    }

    /// The label and reading at position `i` of the insertion order.
    pub fn reading(&self, i: usize) -> (r: (String, i64))
        requires
            i < self@.len(),
        ensures
            r.0@ == self@[i as int].0,
            r.1 == self@[i as int].1,
    {
        map_get_index(&self.map, i)
    }
}

} // verus!
