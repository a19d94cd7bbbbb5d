//! The ordered property map of an item (`indexmap::IndexMap<String, String>`),
//! described by the sequence of its entries in insertion order.
use indexmap::IndexMap;
use vstd::prelude::*;

verus! {

#[verifier::external_type_specification]
#[verifier::external_body]
#[verifier::reject_recursive_types(K)]
#[verifier::reject_recursive_types(V)]
#[verifier::reject_recursive_types(S)]
pub struct ExIndexMap<K, V, S>(IndexMap<K, V, S>);

/// The entries of an `IndexMap<String, String>`, in order.
pub uninterp spec fn prop_entries(m: IndexMap<String, String>) -> Seq<(Seq<char>, Seq<char>)>;

/// Index of the entry with key `k`.
pub open spec fn key_index(es: Seq<(Seq<char>, Seq<char>)>, k: Seq<char>) -> Option<int>
    decreases es.len(),
{
    if es.len() == 0 {
        None
    } else if es[0].0 == k {
        Some(0)
    } else {
        match key_index(es.drop_first(), k) {
            Some(i) => Some(i + 1),
            None => None,
        }
    }
}

/// The value stored for key `k`.
pub open spec fn lookup(es: Seq<(Seq<char>, Seq<char>)>, k: Seq<char>) -> Option<Seq<char>> {
    match key_index(es, k) {
        Some(i) => Some(es[i].1),
        None => None,
    }
}

/// `IndexMap::insert`: an existing key keeps its place and takes the new
/// value; a new key goes last.
pub open spec fn insert_entry(es: Seq<(Seq<char>, Seq<char>)>, k: Seq<char>, v: Seq<char>) -> Seq<
    (Seq<char>, Seq<char>),
> {
    match key_index(es, k) {
        Some(i) => es.update(i, (k, v)),
        None => es.push((k, v)),
    }
}

/// Whether no two entries have the same key, as in a map.
pub open spec fn unique_keys(es: Seq<(Seq<char>, Seq<char>)>) -> bool {
    forall|i: int, j: int| 0 <= i < j < es.len() ==> es[i].0 != es[j].0
}

/// The entries after inserting `pairs` one after the other into an empty map.
pub open spec fn insert_all(pairs: Seq<(Seq<char>, Seq<char>)>) -> Seq<(Seq<char>, Seq<char>)>
    decreases pairs.len(),
{
    if pairs.len() == 0 {
        Seq::empty()
    } else {
        insert_entry(insert_all(pairs.drop_last()), pairs.last().0, pairs.last().1)
    }
}

pub proof fn lemma_key_index(es: Seq<(Seq<char>, Seq<char>)>, k: Seq<char>)
    ensures
        match key_index(es, k) {
            Some(i) => 0 <= i < es.len() && es[i].0 == k && forall|j: int|
                0 <= j < i ==> es[j].0 != k,
            None => forall|j: int| 0 <= j < es.len() ==> es[j].0 != k,
        },
    decreases es.len(),
{
    if es.len() > 0 {
        lemma_key_index(es.drop_first(), k);
        if es[0].0 != k {
            match key_index(es.drop_first(), k) {
                Some(i) => {
                    assert forall|j: int| 0 <= j < i + 1 implies es[j].0 != k by {
                        if j > 0 {
                            assert(es[j] == es.drop_first()[j - 1]);
                        }
                    }
                },
                None => {
                    assert forall|j: int| 0 <= j < es.len() implies es[j].0 != k by {
                        if j > 0 {
                            assert(es[j] == es.drop_first()[j - 1]);
                        }
                    }
                },
            }
        }
    }
}

pub proof fn lemma_key_index_found(es: Seq<(Seq<char>, Seq<char>)>, k: Seq<char>, i: int)
    requires
        0 <= i < es.len(),
        es[i].0 == k,
        forall|j: int| 0 <= j < i ==> es[j].0 != k,
    ensures
        key_index(es, k) == Some(i),
    decreases i,
{
    if i > 0 {
        lemma_key_index_found(es.drop_first(), k, i - 1);
    }
}

pub proof fn lemma_key_index_none(es: Seq<(Seq<char>, Seq<char>)>, k: Seq<char>)
    requires
        forall|j: int| 0 <= j < es.len() ==> es[j].0 != k,
    ensures
        key_index(es, k) is None,
    decreases es.len(),
{
    if es.len() > 0 {
        lemma_key_index_none(es.drop_first(), k);
    }
}

/// Inserting into entries with distinct keys keeps them distinct.
pub proof fn lemma_insert_unique(es: Seq<(Seq<char>, Seq<char>)>, k: Seq<char>, v: Seq<char>)
    requires
        unique_keys(es),
    ensures
        unique_keys(insert_entry(es, k, v)),
{
    lemma_key_index(es, k);
    let r = insert_entry(es, k, v);
    match key_index(es, k) {
        Some(x) => {
            assert forall|i: int, j: int| 0 <= i < j < r.len() implies r[i].0 != r[j].0 by {
                assert(r[i].0 == es[i].0 && r[j].0 == es[j].0);
            }
        },
        None => {
            assert forall|i: int, j: int| 0 <= i < j < r.len() implies r[i].0 != r[j].0 by {
                if j == es.len() {
                    assert(r[i] == es[i]);
                } else {
                    assert(r[i] == es[i] && r[j] == es[j]);
                }
            }
        },
    }
}

/// What a lookup gives right after an insertion.
pub proof fn lemma_lookup_insert(es: Seq<(Seq<char>, Seq<char>)>, k: Seq<char>, v: Seq<char>, q: Seq<char>)
    ensures
        lookup(insert_entry(es, k, v), q) == if q == k {
            Some(v)
        } else {
            lookup(es, q)
        },
{
    let es2 = insert_entry(es, k, v);
    lemma_key_index(es, k);
    lemma_key_index(es, q);
    lemma_key_index(es2, q);
    match key_index(es, k) {
        Some(i) => {
            if q == k {
                lemma_key_index_found(es2, q, i);
            } else {
                match key_index(es, q) {
                    Some(j) => {
                        lemma_key_index_found(es2, q, j);
                    },
                    None => {
                        lemma_key_index_none(es2, q);
                    },
                }
            }
        },
        None => {
            if q == k {
                lemma_key_index_found(es2, q, es.len() as int);
            } else {
                match key_index(es, q) {
                    Some(j) => {
                        lemma_key_index_found(es2, q, j);
                    },
                    None => {
                        lemma_key_index_none(es2, q);
                    },
                }
            }
        },
    }
}

/// `IndexMap::new`: an empty map.
#[verifier::external_body]
fn map_new() -> (m: IndexMap<String, String>)
    ensures
        prop_entries(m) == Seq::<(Seq<char>, Seq<char>)>::empty(),
{
    IndexMap::new()
}

/// `IndexMap::insert`.
#[verifier::external_body]
fn map_insert(m: &mut IndexMap<String, String>, k: String, v: String)
    ensures
        prop_entries(*final(m)) == insert_entry(prop_entries(*old(m)), k@, v@),
{
    m.insert(k, v);
}

/// `IndexMap::get`.
#[verifier::external_body]
fn map_get<'a>(m: &'a IndexMap<String, String>, k: &str) -> (r: Option<&'a String>)
    ensures
        match lookup(prop_entries(*m), k@) {
            Some(v) => r is Some && r.unwrap()@ == v,
            None => r is None,
        },
{
    m.get(k)
}

/// `IndexMap::contains_key`.
#[verifier::external_body]
fn map_contains(m: &IndexMap<String, String>, k: &str) -> (r: bool)
    ensures
        r == (key_index(prop_entries(*m), k@) is Some),
{
    m.contains_key(k)
}

/// `IndexMap::len`.
#[verifier::external_body]
fn map_len(m: &IndexMap<String, String>) -> (r: usize)
    ensures
        r == prop_entries(*m).len(),
{
    m.len()
}

/// `IndexMap::iter`, each entry copied out as a pair of strings.
#[verifier::external_body]
fn map_pairs(m: &IndexMap<String, String>) -> (r: Vec<(String, String)>)
    ensures
        r@.len() == prop_entries(*m).len(),
        forall|i: int|
            0 <= i < r@.len() ==> (#[trigger] r@[i]).0@ == prop_entries(*m)[i].0 && r@[i].1@
                == prop_entries(*m)[i].1,
{
    m.iter().map(|(k, v)| (k.clone(), v.clone())).collect()
}

/// `IndexMap::clone`.
#[verifier::external_body]
fn map_clone(m: &IndexMap<String, String>) -> (r: IndexMap<String, String>)
    ensures
        prop_entries(r) == prop_entries(*m),
{
    m.clone()
}

/// The properties of an item: an ordered map whose keys are distinct.
#[derive(Debug)]
pub struct Props {
    map: IndexMap<String, String>,
}

impl Props {
    /// The entries, in insertion order.
    pub closed spec fn entries(&self) -> Seq<(Seq<char>, Seq<char>)> {
        prop_entries(self.map)
    }

    /// No key appears twice.
    #[verifier::type_invariant]
    closed spec fn keys_once(&self) -> bool {
        unique_keys(prop_entries(self.map))
    }

}

/// An empty property map.
pub(crate) fn props_new() -> (m: Props)
    ensures
        m.entries() == Seq::<(Seq<char>, Seq<char>)>::empty(),
{
    Props { map: map_new() }
}

/// Sets `k` to `v`: in place when `k` is present, else at the end.
pub(crate) fn props_insert(m: &mut Props, k: String, v: String)
    ensures
        final(m).entries() == insert_entry(old(m).entries(), k@, v@),
{
    proof {
        use_type_invariant(&*m);
        lemma_insert_unique(prop_entries(m.map), k@, v@);
    }
    let mut inner = map_new();
    std::mem::swap(&mut inner, &mut m.map);
    map_insert(&mut inner, k, v);
    m.map = inner;
}

pub(crate) fn props_get<'a>(m: &'a Props, k: &str) -> (r: Option<&'a String>)
    ensures
        match lookup(m.entries(), k@) {
            Some(v) => r is Some && r.unwrap()@ == v,
            None => r is None,
        },
{
    map_get(&m.map, k)
}

pub(crate) fn props_contains(m: &Props, k: &str) -> (r: bool)
    ensures
        r == (key_index(m.entries(), k@) is Some),
{
    map_contains(&m.map, k)
}

pub(crate) fn props_len(m: &Props) -> (r: usize)
    ensures
        r == m.entries().len(),
{
    map_len(&m.map)
}

/// The entries as pairs of strings; no key appears twice.
pub(crate) fn props_pairs(m: &Props) -> (r: Vec<(String, String)>)
    ensures
        r@.len() == m.entries().len(),
        forall|i: int|
            0 <= i < r@.len() ==> (#[trigger] r@[i]).0@ == m.entries()[i].0 && r@[i].1@ == m.entries()[i].1,
        unique_keys(m.entries()),
{
    proof {
        use_type_invariant(m);
    }
    map_pairs(&m.map)
}

pub(crate) fn props_clone(m: &Props) -> (r: Props)
    ensures
        r.entries() == m.entries(),
{
    proof {
        use_type_invariant(m);
    }
    Props { map: map_clone(&m.map) }
}

} // verus!
