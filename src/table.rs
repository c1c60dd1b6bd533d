//! A table from names to values, looked up by the text of the name.
use vstd::prelude::*;
use crate::text::chars_of;

verus! {

/// The position of the first entry named `k`.
pub open spec fn key_index<V>(entries: Seq<(String, V)>, k: Seq<char>) -> Option<int>
    decreases entries.len(),
{
    if entries.len() == 0 {
        None
    } else if entries[0].0@ == k {
        Some(0)
    } else {
        match key_index(entries.drop_first(), k) {
            Some(i) => Some(i + 1),
            None => None,
        }
    }
}

/// The names in `v`, as text.
pub open spec fn names_of(v: Seq<String>) -> Seq<Seq<char>> {
    v.map_values(|x: String| x@)
}

/// Whether `name` is among `names`.
pub fn listed(names: &Vec<String>, name: &str) -> (r: bool)
    ensures
        r == names_of(names@).contains(name@),
{
    let mut i: usize = 0;
    while i < names.len()
        invariant
            i <= names@.len(),
            forall|j: int| 0 <= j < i ==> names@[j]@ != name@,
        decreases names@.len() - i,
    {
        if same_text(names[i].as_str(), name) {
            assert(names_of(names@)[i as int] == name@);
            return true;
        }
        i = i + 1;
    }
    assert(!names_of(names@).contains(name@)) by {
        if names_of(names@).contains(name@) {
            let j = choose|j: int| 0 <= j < names_of(names@).len() && names_of(names@)[j] == name@;
            assert(names@[j]@ == name@);
        }
    }
    false
}

/// Named values in the order in which they were added. `insert` keeps each name once;
/// a lookup finds the first entry of a name.
#[derive(Debug, Clone)]
pub struct NameMap<V> {
    pub entries: Vec<(String, V)>,
}

/// Whether two texts are equal.
pub fn same_text(a: &str, b: &str) -> (r: bool)
    ensures
        r == (a@ == b@),
{
    let x = chars_of(a);
    let y = chars_of(b);
    if x.len() != y.len() {
        assert(x@.len() != y@.len());
        return false;
    }
    let mut i: usize = 0;
    while i < x.len()
        invariant
            x@ == a@,
            y@ == b@,
            x@.len() == y@.len(),
            i <= x@.len(),
            forall|j: int| 0 <= j < i ==> x@[j] == y@[j],
        decreases x@.len() - i,
    {
        if x[i] != y[i] {
            assert(x@[i as int] != y@[i as int]);
            return false;
        }
        i = i + 1;
    }
    assert(x@ =~= y@);
    true
}

/// The position of the first entry named `k`, as `key_index` has it.
pub proof fn lemma_key_index<V>(entries: Seq<(String, V)>, k: Seq<char>)
    ensures
        key_index(entries, k) matches Some(i) ==> 0 <= i < entries.len() && entries[i].0@ == k
            && forall|j: int| 0 <= j < i ==> entries[j].0@ != k,
        key_index(entries, k) is None ==> forall|j: int|
            0 <= j < entries.len() ==> entries[j].0@ != k,
    decreases entries.len(),
{
    if entries.len() > 0 {
        lemma_key_index(entries.drop_first(), k);
        assert forall|j: int| 0 < j < entries.len() implies entries[j] == entries.drop_first()[j
            - 1] by {}
    }
}

pub(crate) proof fn lemma_key_index_at<V>(entries: Seq<(String, V)>, k: Seq<char>, i: int)
    requires
        0 <= i < entries.len(),
        entries[i].0@ == k,
        forall|j: int| 0 <= j < i ==> entries[j].0@ != k,
    ensures
        key_index(entries, k) == Some(i),
    decreases i,
{
    if i > 0 {
        lemma_key_index_at(entries.drop_first(), k, i - 1);
    }
}

pub(crate) proof fn lemma_key_index_none<V>(entries: Seq<(String, V)>, k: Seq<char>)
    requires
        forall|j: int| 0 <= j < entries.len() ==> entries[j].0@ != k,
    ensures
        key_index(entries, k) is None,
    decreases entries.len(),
{
    if entries.len() > 0 {
        lemma_key_index_none(entries.drop_first(), k);
    }
}

impl<V> NameMap<V> {
    /// The value named `k`.
    pub open spec fn lookup(&self, k: Seq<char>) -> Option<V> {
        match key_index(self.entries@, k) {
            Some(i) => Some(self.entries@[i].1),
            None => None,
        }
    }

    /// The names, in order.
    pub open spec fn names(&self) -> Seq<Seq<char>> {
        self.entries@.map_values(|e: (String, V)| e.0@)
    }

    /// An empty table.
    pub fn new() -> (r: Self)
        ensures
            r.entries@.len() == 0,
    {
        NameMap { entries: Vec::new() }
    }

    /// The number of entries.
    pub fn len(&self) -> (r: usize)
        ensures
            r == self.entries@.len(),
    {
        self.entries.len()
    }

    /// The position of the entry named `k`.
    pub fn position(&self, k: &str) -> (r: Option<usize>)
        ensures
            r == (match key_index(self.entries@, k@) {
                Some(i) => Some(i as usize),
                None => None::<usize>,
            }),
            r matches Some(i) ==> i < self.entries@.len() && self.entries@[i as int].0@ == k@,
    {
        let mut i: usize = 0;
        while i < self.entries.len()
            invariant
                i <= self.entries@.len(),
                forall|j: int| 0 <= j < i ==> self.entries@[j].0@ != k@,
            decreases self.entries@.len() - i,
        {
            if same_text(self.entries[i].0.as_str(), k) {
                proof {
                    lemma_key_index_at(self.entries@, k@, i as int);
                }
                return Some(i);
            }
            i = i + 1;
        }
        proof {
            lemma_key_index_none(self.entries@, k@);
        }
        None
    }

    /// The value named `k`.
    pub fn get(&self, k: &str) -> (r: Option<&V>)
        ensures
            r.is_some() == self.lookup(k@).is_some(),
            r matches Some(v) ==> self.lookup(k@) == Some(*v),
    {
        proof {
            lemma_key_index(self.entries@, k@);
        }
        match self.position(k) {
            Some(i) => Some(&self.entries[i].1),
            None => None,
        }
    }

    /// Whether a value is named `k`.
    pub fn contains(&self, k: &str) -> (r: bool)
        ensures
            r == self.lookup(k@).is_some(),
    {
        self.position(k).is_some()
    }

    /// Names `v` by `k`, in place of a value that `k` named before.
    pub fn insert(&mut self, k: String, v: V)
        ensures
            final(self).lookup(k@) == Some(v),
            forall|n: Seq<char>| n != k@ ==> final(self).lookup(n) == old(self).lookup(n),
            old(self).names().no_duplicates() ==> final(self).names().no_duplicates(),
    {
        proof {
            lemma_key_index(self.entries@, k@);
        }
        match self.position(k.as_str()) {
            Some(i) => {
                let ghost before = self.entries@;
                self.entries.set(i, (k, v));
                proof {
                    let after = self.entries@;
                    assert(after.map_values(|e: (String, V)| e.0@) =~= before.map_values(
                        |e: (String, V)| e.0@,
                    ));
                    lemma_key_index_at(after, after[i as int].0@, i as int);
                    assert forall|n: Seq<char>| n != after[i as int].0@ implies key_index(after, n)
                        == key_index(before, n) && #[trigger] self.lookup(n) == old(self).lookup(n) by {
                        lemma_key_index(before, n);
                        assert(forall|l: int| 0 <= l < after.len() && l != i ==> after[l] == before[l]);
                        match key_index(before, n) {
                            Some(j) => {
                                assert(j != i);
                                lemma_key_index_at(after, n, j);
                                assert(after[j] == before[j]);
                            },
                            None => lemma_key_index_none(after, n),
                        }
                    }
                }
            },
            None => {
                let ghost before = self.entries@;
                self.entries.push((k, v));
                proof {
                    let after = self.entries@;
                    let nb = before.map_values(|e: (String, V)| e.0@);
                    let na = after.map_values(|e: (String, V)| e.0@);
                    assert(na =~= nb.push(after[before.len() as int].0@));
                    assert forall|x: int, y: int| 0 <= x < y < na.len() && nb.no_duplicates() implies na[x] != na[y] by {
                        if y == na.len() - 1 {
                            assert(na[x] == before[x].0@);
                        } else {
                            assert(na[x] == nb[x] && na[y] == nb[y]);
                        }
                    }
                    let kk = after[before.len() as int].0@;
                    lemma_key_index_at(after, kk, before.len() as int);
                    assert forall|n: Seq<char>| n != kk implies key_index(after, n)
                        == key_index(before, n) && #[trigger] self.lookup(n) == old(self).lookup(n) by {
                        lemma_key_index(before, n);
                        assert(forall|l: int| 0 <= l < before.len() ==> after[l] == before[l]);
                        match key_index(before, n) {
                            Some(j) => {
                                lemma_key_index_at(after, n, j);
                                assert(after[j] == before[j]);
                            },
                            None => lemma_key_index_none(after, n),
                        }
                    }
                }
            },
        }
    }
}

/// Distinct names, each of which names a value of `m`, are no more than its entries.
pub proof fn lemma_distinct_names_fit<V>(m: NameMap<V>, names: Seq<Seq<char>>)
    requires
        names.no_duplicates(),
        forall|i: int| 0 <= i < names.len() ==> m.lookup(#[trigger] names[i]) is Some,
    ensures
        names.len() <= m.entries@.len(),
{
    let keys = m.names();
    names.unique_seq_to_set();
    keys.lemma_cardinality_of_set();
    assert(names.to_set().subset_of(keys.to_set())) by {
        assert forall|x: Seq<char>| names.to_set().contains(x) implies keys.to_set().contains(x) by {
            let i = choose|i: int| 0 <= i < names.len() && names[i] == x;
            assert(m.lookup(names[i]) is Some);
            lemma_key_index(m.entries@, x);
            let j = key_index(m.entries@, x)->0;
            assert(keys[j] == x);
        }
    }
    vstd::seq_lib::seq_to_set_is_finite(keys);
    vstd::set_lib::lemma_len_subset(names.to_set(), keys.to_set());
}

} // verus!
