//! The value store: a mapping from name to [`Value`], append-only until
//! it is frozen into a payload.
//!
//! The store keeps its entries in insertion order; lookups resolve a
//! name to its first (and, under the store's well-formedness, only)
//! entry.

use vstd::prelude::*;

use crate::text::str_eq;
use crate::value::{Value, ValueModel};

verus! {

/// Model of a store: the named values in insertion order, each name as
/// its character sequence.
pub type StoreModel = Seq<(Seq<char>, ValueModel)>;

/// Model of a sequence of owned entries.
pub open spec fn entries_model(entries: Seq<(String, Value)>) -> StoreModel {
    Seq::new(entries.len(), |i: int| (entries[i].0@, entries[i].1@))
}

/// The value bound to `name`: the first entry with that name, if any.
pub open spec fn store_get(s: StoreModel, name: Seq<char>) -> Option<ValueModel>
    decreases s.len(),
{
    if s.len() == 0 {
        None
    } else if s[0].0 == name {
        Some(s[0].1)
    } else {
        store_get(s.drop_first(), name)
    }
}

/// Whether some entry carries `name`.
pub open spec fn store_contains(s: StoreModel, name: Seq<char>) -> bool {
    store_get(s, name) is Some
}

/// Every stored value's index axes agree with the given dimensions.
pub open spec fn store_dims_ok(s: StoreModel, num_layers: usize, num_mlp_neurons: usize) -> bool {
    forall|i: int| 0 <= i < s.len() ==> (#[trigger] s[i].1).dims_ok(num_layers, num_mlp_neurons)
}

/// Every stored value has at least as many axes as its scope consumes.
pub open spec fn store_scopes_consistent(s: StoreModel) -> bool {
    forall|i: int|
        0 <= i < s.len() ==> (#[trigger] s[i].1).shape.len()
            >= s[i].1.scope.spec_index_axis_count()
}

/// Every name occurs at most once, and every stored value is well-formed.
pub open spec fn store_wf(s: StoreModel) -> bool {
    (forall|i: int, j: int|
        0 <= i < j < s.len() ==> (#[trigger] s[i].0) != (#[trigger] s[j].0)) && (forall|i: int|
        0 <= i < s.len() ==> (#[trigger] s[i].1).wf())
}

/// A name found at an entry resolves to that entry, provided no earlier
/// entry holds the name.
pub proof fn lemma_store_get_at(s: StoreModel, name: Seq<char>, i: int)
    requires
        0 <= i < s.len(),
        s[i].0 == name,
        forall|j: int| 0 <= j < i ==> (#[trigger] s[j].0) != name,
    ensures
        store_get(s, name) == Some(s[i].1),
    decreases i,
{
    if i == 0 {
    } else {
        assert(forall|j: int|
            0 <= j < i - 1 ==> (#[trigger] s.drop_first()[j].0) == s[j + 1].0);
        lemma_store_get_at(s.drop_first(), name, i - 1);
    }
}

/// A name no entry carries resolves to nothing.
pub proof fn lemma_store_get_absent(s: StoreModel, name: Seq<char>)
    requires
        forall|j: int| 0 <= j < s.len() ==> (#[trigger] s[j].0) != name,
    ensures
        store_get(s, name) is None,
    decreases s.len(),
{
    if s.len() > 0 {
        assert(forall|j: int|
            0 <= j < s.len() - 1 ==> (#[trigger] s.drop_first()[j].0) == s[j + 1].0);
        lemma_store_get_absent(s.drop_first(), name);
    }
}

/// A name that resolves to nothing is carried by no entry.
pub proof fn lemma_store_get_none(s: StoreModel, name: Seq<char>)
    requires
        store_get(s, name) is None,
    ensures
        forall|j: int| 0 <= j < s.len() ==> (#[trigger] s[j].0) != name,
    decreases s.len(),
{
    if s.len() > 0 {
        lemma_store_get_none(s.drop_first(), name);
        assert(forall|j: int|
            1 <= j < s.len() ==> (#[trigger] s[j]) == s.drop_first()[j - 1]);
    }
}

/// A resolved name is carried by some entry.
pub proof fn lemma_store_get_index(s: StoreModel, name: Seq<char>) -> (i: int)
    requires
        store_get(s, name) is Some,
    ensures
        0 <= i < s.len(),
        s[i].0 == name,
        s[i].1 == store_get(s, name)->0,
    decreases s.len(),
{
    if s[0].0 == name {
        0
    } else {
        let j = lemma_store_get_index(s.drop_first(), name);
        j + 1
    }
}

/// Appending an entry leaves every other name's resolution unchanged
/// and binds the new name, where it was free before.
pub proof fn lemma_store_get_push(s: StoreModel, name: Seq<char>, entry: (Seq<char>, ValueModel))
    ensures
        entry.0 != name ==> store_get(s.push(entry), name) == store_get(s, name),
        entry.0 == name && !store_contains(s, name) ==> store_get(s.push(entry), name)
            == Some(entry.1),
    decreases s.len(),
{
    if s.len() == 0 {
        assert(s.push(entry)[0] == entry);
        assert(s.push(entry).drop_first() =~= Seq::<(Seq<char>, ValueModel)>::empty());
    } else {
        assert(s.push(entry).drop_first() =~= s.drop_first().push(entry));
        lemma_store_get_push(s.drop_first(), name, entry);
    }
}

/// A mapping from name (unique) to [`Value`]. Append-only: entries are
/// added by the payload builder and never changed or removed.
#[derive(Clone, Debug)]
pub struct Values {
    entries: Vec<(String, Value)>,
}

impl View for Values {
    type V = StoreModel;

    closed spec fn view(&self) -> StoreModel {
        entries_model(self.entries@)
    }
}

impl Values {
    /// An empty store.
    pub fn new() -> (r: Values)
        ensures
            r@ == Seq::<(Seq<char>, ValueModel)>::empty(),
    {
        let r = Values { entries: Vec::new() };
        proof {
            assert(r@ =~= Seq::<(Seq<char>, ValueModel)>::empty());
        }
        r
    }

    /// Number of entries.
    pub fn len(&self) -> (n: usize)
        ensures
            n == self@.len(),
    {
        self.entries.len()
    }

    /// The entry at a position, in insertion order.
    pub fn entry_at(&self, i: usize) -> (r: (&String, &Value))
        requires
            i < self@.len(),
        ensures
            r.0@ == self@[i as int].0,
            r.1@ == self@[i as int].1,
    {
        let e = &self.entries[i];
        (&e.0, &e.1)
    }

    /// Whether the store holds a value under `key`.
    pub fn contains_key(&self, key: &str) -> (r: bool)
        ensures
            r == store_contains(self@, key@),
    {
        self.get(key).is_some()
    }

    /// The value stored under `key`, if any. This is the only read path;
    /// slicing and typed access go through the returned value.
    pub fn get(&self, key: &str) -> (r: Option<&Value>)
        ensures
            match r {
                Some(v) => store_get(self@, key@) == Some(v@),
                None => store_get(self@, key@) is None,
            },
    {
        let n = self.entries.len();
        let mut i: usize = 0;
        while i < n
            invariant
                0 <= i <= n,
                n == self@.len(),
                self@.len() == self.entries@.len(),
                forall|j: int| 0 <= j < i ==> (#[trigger] self@[j].0) != key@,
            decreases n - i,
        {
            let e = &self.entries[i];
            if str_eq(e.0.as_str(), key) {
                proof {
                    lemma_store_get_at(self@, key@, i as int);
                }
                return Some(&e.1);
            }
            i = i + 1;
        }
        proof {
            lemma_store_get_absent(self@, key@);
        }
        None
    }

    /// Appends a new entry. The caller keeps names unique: the payload
    /// builder refuses a duplicate before it ever calls this.
    pub(crate) fn insert(&mut self, key: String, value: Value)
        ensures
            final(self)@ == old(self)@.push((key@, value@)),
    {
        self.entries.push((key, value));
        proof {
            assert(self@ =~= old(self)@.push((key@, value@)));
        }
    }
}

} // verus!
