//! A map from text keys to values, held as a list of entries with distinct keys.

use crate::text::views;
use vstd::prelude::*;

verus! {

/// A map with `String` keys.
///
/// Its model is a mathematical map from key text to the model of the value.
pub struct StringMap<V> {
    entries: Vec<(String, V)>,
}

impl<V: View> View for StringMap<V> {
    type V = Map<Seq<char>, V::V>;

    closed spec fn view(&self) -> Map<Seq<char>, V::V> {
        entry_map(self.entries@)
    }
}

/// Whether an entry of key `k` stands at position `i`.
spec fn key_at<V>(entries: Seq<(String, V)>, k: Seq<char>, i: int) -> bool {
    0 <= i < entries.len() && entries[i].0@ == k
}

/// The entries as a map.
spec fn entry_map<V: View>(entries: Seq<(String, V)>) -> Map<Seq<char>, V::V> {
    Map::new(
        |k: Seq<char>| exists|i: int| key_at(entries, k, i),
        |k: Seq<char>| entries[choose|i: int| key_at(entries, k, i)].1@,
    )
}

/// No key occurs twice.
spec fn distinct_keys<V>(entries: Seq<(String, V)>) -> bool {
    forall|i: int, j: int|
        0 <= i < entries.len() && 0 <= j < entries.len() && #[trigger] entries[i].0@
            == #[trigger] entries[j].0@ ==> i == j
}

proof fn lemma_entry<V: View>(entries: Seq<(String, V)>, i: int)
    requires
        distinct_keys(entries),
        0 <= i < entries.len(),
    ensures
        entry_map(entries).contains_key(entries[i].0@),
        entry_map(entries)[entries[i].0@] == entries[i].1@,
{
    let k = entries[i].0@;
    assert(key_at(entries, k, i));
    let j = choose|j: int| key_at(entries, k, j);
    assert(entries[j].0@ == entries[i].0@);
}

proof fn lemma_push<V: View>(entries: Seq<(String, V)>, key: String, value: V)
    requires
        distinct_keys(entries),
        !entry_map(entries).contains_key(key@),
    ensures
        distinct_keys(entries.push((key, value))),
        entry_map(entries.push((key, value))) == entry_map(entries).insert(key@, value@),
{
    let after = entries.push((key, value));
    let m = entry_map(after);
    let want = entry_map(entries).insert(key@, value@);
    assert forall|i: int| 0 <= i < entries.len() implies entries[i].0@ != key@ by {
        if entries[i].0@ == key@ {
            assert(key_at(entries, key@, i));
        }
    }
    assert(distinct_keys(after));
    assert forall|k: Seq<char>| m.contains_key(k) == want.contains_key(k) by {
        if m.contains_key(k) {
            let i = choose|i: int| key_at(after, k, i);
            if i < entries.len() {
                assert(key_at(entries, k, i));
            }
        }
        if entry_map(entries).contains_key(k) {
            let i = choose|i: int| key_at(entries, k, i);
            assert(key_at(after, k, i));
        }
        if k == key@ {
            assert(key_at(after, k, entries.len() as int));
        }
    }
    assert forall|k: Seq<char>| m.contains_key(k) implies m[k] == want[k] by {
        let i = choose|i: int| key_at(after, k, i);
        lemma_entry(after, i);
        if i < entries.len() {
            lemma_entry(entries, i);
        }
    }
    assert(m =~= want);
}

proof fn lemma_remove<V: View>(entries: Seq<(String, V)>, at: int)
    requires
        distinct_keys(entries),
        0 <= at < entries.len(),
    ensures
        distinct_keys(entries.remove(at)),
        entry_map(entries.remove(at)) == entry_map(entries).remove(entries[at].0@),
{
    let after = entries.remove(at);
    let m = entry_map(after);
    let want = entry_map(entries).remove(entries[at].0@);
    assert forall|i: int| 0 <= i < after.len() implies #[trigger] after[i] == (if i < at {
        entries[i]
    } else {
        entries[i + 1]
    }) by {}
    assert(distinct_keys(after)) by {
        assert forall|i: int, j: int|
            0 <= i < after.len() && 0 <= j < after.len() && #[trigger] after[i].0@
                == #[trigger] after[j].0@ implies i == j by {
            let p = if i < at { i } else { i + 1 };
            let q = if j < at { j } else { j + 1 };
            assert(entries[p].0@ == entries[q].0@);
        }
    }
    assert forall|k: Seq<char>| m.contains_key(k) == want.contains_key(k) by {
        if m.contains_key(k) {
            let i = choose|i: int| key_at(after, k, i);
            let p = if i < at { i } else { i + 1 };
            assert(key_at(entries, k, p));
            if k == entries[at].0@ {
                assert(entries[p].0@ == entries[at].0@);
            }
        }
        if want.contains_key(k) {
            let p = choose|p: int| key_at(entries, k, p);
            let i = if p < at { p } else { p - 1 };
            assert(key_at(after, k, i));
        }
    }
    assert forall|k: Seq<char>| m.contains_key(k) implies m[k] == want[k] by {
        let i = choose|i: int| key_at(after, k, i);
        let p = if i < at { i } else { i + 1 };
        lemma_entry(after, i);
        lemma_entry(entries, p);
        assert(want.contains_key(k));
    }
    assert(m =~= want);
}

impl<V> StringMap<V> {
    #[verifier::type_invariant]
    spec fn well_formed(self) -> bool {
        distinct_keys(self.entries@)
    }
}

impl<V: View> StringMap<V> {
    /// An empty map.
    pub fn new() -> (r: Self)
        ensures
            r@ == Map::<Seq<char>, V::V>::empty(),
    {
        let entries: Vec<(String, V)> = Vec::new();
        assert(entry_map(entries@) =~= Map::<Seq<char>, V::V>::empty()) by {
            assert forall|k: Seq<char>| !entry_map(entries@).contains_key(k) by {
                if entry_map(entries@).contains_key(k) {
                    let i = choose|i: int| key_at(entries@, k, i);
                    assert(key_at(entries@, k, i));
                }
            }
        }
        StringMap { entries }
    }

    /// The position of `key` among the entries.
    fn position(&self, key: &str) -> (r: Option<usize>)
        ensures
            match r {
                Some(i) => i < self.entries@.len() && self.entries@[i as int].0@ == key@,
                None => !self@.contains_key(key@),
            },
    {
        let wanted = key.to_owned();
        let mut i: usize = 0;
        while i < self.entries.len()
            invariant
                wanted@ == key@,
                i <= self.entries@.len(),
                forall|k: int| 0 <= k < i ==> (#[trigger] self.entries@[k]).0@ != key@,
            decreases self.entries@.len() - i,
        {
            if self.entries[i].0 == wanted {
                return Some(i);
            }
            i += 1;
        }
        None
    }

    /// The value of `key`, if there is one.
    pub fn get(&self, key: &str) -> (r: Option<&V>)
        ensures
            match r {
                Some(v) => self@.contains_key(key@) && v@ == self@[key@],
                None => !self@.contains_key(key@),
            },
    {
        proof {
            use_type_invariant(self);
        }
        match self.position(key) {
            Some(i) => {
                proof {
                    lemma_entry(self.entries@, i as int);
                }
                Some(&self.entries[i].1)
            },
            None => None,
        }
    }

    /// Whether `key` has a value.
    pub fn contains_key(&self, key: &str) -> (r: bool)
        ensures
            r == self@.contains_key(key@),
    {
        self.get(key).is_some()
    }

    /// Removes `key` and returns its value, if there was one.
    pub fn remove(&mut self, key: &str) -> (r: Option<V>)
        ensures
            final(self)@ == old(self)@.remove(key@),
            match r {
                Some(v) => old(self)@.contains_key(key@) && v@ == old(self)@[key@],
                None => !old(self)@.contains_key(key@),
            },
    {
        proof {
            use_type_invariant(&*self);
        }
        match self.position(key) {
            Some(i) => {
                proof {
                    lemma_entry(self.entries@, i as int);
                    lemma_remove(self.entries@, i as int);
                }
                let mut entries: Vec<(String, V)> = Vec::new();
                assert(distinct_keys(entries@));
                std::mem::swap(&mut entries, &mut self.entries);
                let (_, value) = entries.remove(i);
                self.entries = entries;
                Some(value)
            },
            None => {
                assert(self@.remove(key@) =~= self@);
                None
            },
        }
    }

    /// Gives `key` the value `value` and returns the value it had before, if there was one.
    pub fn insert(&mut self, key: String, value: V) -> (r: Option<V>)
        ensures
            final(self)@ == old(self)@.insert(key@, value@),
            match r {
                Some(v) => old(self)@.contains_key(key@) && v@ == old(self)@[key@],
                None => !old(self)@.contains_key(key@),
            },
    {
        let previous = self.remove(key.as_str());
        proof {
            use_type_invariant(&*self);
            lemma_push(self.entries@, key, value);
            assert(old(self)@.remove(key@).insert(key@, value@) =~= old(self)@.insert(
                key@,
                value@,
            ));
        }
        let mut entries: Vec<(String, V)> = Vec::new();
        std::mem::swap(&mut entries, &mut self.entries);
        entries.push((key, value));
        self.entries = entries;
        previous
    }

    /// The keys, each once.
    pub fn keys(&self) -> (r: Vec<String>)
        ensures
            views(r@).no_duplicates(),
            forall|k: Seq<char>| self@.contains_key(k) <==> #[trigger] views(r@).contains(k),
    {
        proof {
            use_type_invariant(self);
        }
        let mut r: Vec<String> = Vec::new();
        let mut i: usize = 0;
        while i < self.entries.len()
            invariant
                i == r@.len(),
                i <= self.entries@.len(),
                forall|k: int| 0 <= k < i ==> r@[k]@ == (#[trigger] self.entries@[k]).0@,
            decreases self.entries@.len() - i,
        {
            r.push(self.entries[i].0.clone());
            i += 1;
        }
        proof {
            let ks = views(r@);
            assert forall|i: int, j: int|
                0 <= i < ks.len() && 0 <= j < ks.len() && i != j implies ks[i] != ks[j] by {
                assert(r@[i]@ == self.entries@[i].0@);
                assert(r@[j]@ == self.entries@[j].0@);
            }
            assert forall|k: Seq<char>| self@.contains_key(k) <==> #[trigger] ks.contains(k) by {
                if self@.contains_key(k) {
                    let i = choose|i: int| key_at(self.entries@, k, i);
                    assert(ks[i] == self.entries@[i].0@);
                }
                if ks.contains(k) {
                    let i = choose|i: int| 0 <= i < ks.len() && ks[i] == k;
                    assert(r@[i]@ == self.entries@[i].0@);
                    assert(key_at(self.entries@, k, i));
                }
            }
        }
        r
    }
}

impl<V: View + Clone> Clone for StringMap<V> {
    /// Copies every entry. The copy has the same model wherever copying a value keeps its model.
    fn clone(&self) -> (r: Self)
        ensures
            (forall|a: V, b: V| #[trigger] cloned(a, b) ==> a@ == b@) ==> r@ == self@,
    {
        proof {
            use_type_invariant(self);
        }
        let mut entries: Vec<(String, V)> = Vec::new();
        let mut i: usize = 0;
        while i < self.entries.len()
            invariant
                i == entries@.len(),
                i <= self.entries@.len(),
                forall|k: int|
                    0 <= k < i ==> (#[trigger] entries@[k]).0@ == self.entries@[k].0@ && cloned(
                        self.entries@[k].1,
                        entries@[k].1,
                    ),
            decreases self.entries@.len() - i,
        {
            entries.push((self.entries[i].0.clone(), self.entries[i].1.clone()));
            i += 1;
        }
        proof {
            assert forall|i: int, j: int|
                0 <= i < entries@.len() && 0 <= j < entries@.len() && #[trigger] entries@[i].0@
                    == #[trigger] entries@[j].0@ implies i == j by {
                assert(self.entries@[i].0@ == self.entries@[j].0@);
            }
            if forall|a: V, b: V| #[trigger] cloned(a, b) ==> a@ == b@ {
                lemma_same_model(self.entries@, entries@);
            }
        }
        StringMap { entries }
    }
}

proof fn lemma_same_model<V: View>(a: Seq<(String, V)>, b: Seq<(String, V)>)
    requires
        distinct_keys(a),
        distinct_keys(b),
        a.len() == b.len(),
        forall|k: int| 0 <= k < a.len() ==> #[trigger] a[k].0@ == b[k].0@ && a[k].1@ == b[k].1@,
    ensures
        entry_map(a) == entry_map(b),
{
    assert forall|k: Seq<char>| entry_map(a).contains_key(k) == entry_map(b).contains_key(k) by {
        if entry_map(a).contains_key(k) {
            let i = choose|i: int| key_at(a, k, i);
            assert(key_at(b, k, i));
        }
        if entry_map(b).contains_key(k) {
            let i = choose|i: int| key_at(b, k, i);
            assert(a[i].0@ == b[i].0@);
            assert(key_at(a, k, i));
        }
    }
    assert forall|k: Seq<char>| entry_map(a).contains_key(k) implies entry_map(a)[k] == entry_map(
        b,
    )[k] by {
        let i = choose|i: int| key_at(a, k, i);
        lemma_entry(a, i);
        lemma_entry(b, i);
    }
    assert(entry_map(a) =~= entry_map(b));
}

/// Law: what was inserted under a key is found under it, and nothing else is found or lost by it.
pub proof fn law_inserted_is_found<V: View>(
    map: &mut StringMap<V>,
    key: String,
    value: V,
    previous: Option<V>,
    wanted: &str,
    found: Option<&V>,
)
    requires
        call_ensures(StringMap::<V>::insert, (map, key, value), previous),
        call_ensures(StringMap::<V>::get, (&*final(map), wanted), found),
    ensures
        wanted@ == key@ ==> found is Some && found->0@ == value@,
        wanted@ != key@ ==> (found is Some <==> old(map)@.contains_key(wanted@)),
        wanted@ != key@ && found is Some ==> found->0@ == old(map)@[wanted@],
        previous is Some <==> old(map)@.contains_key(key@),
        previous is Some ==> previous->0@ == old(map)@[key@],
{
}

/// Law: what was removed is no longer found, and nothing else is lost by it.
pub proof fn law_removed_is_gone<V: View>(
    map: &mut StringMap<V>,
    key: &str,
    removed: Option<V>,
    wanted: &str,
    found: Option<&V>,
)
    requires
        call_ensures(StringMap::<V>::remove, (map, key), removed),
        call_ensures(StringMap::<V>::get, (&*final(map), wanted), found),
    ensures
        wanted@ == key@ ==> found is None,
        wanted@ != key@ ==> (found is Some <==> old(map)@.contains_key(wanted@)),
        wanted@ != key@ && found is Some ==> found->0@ == old(map)@[wanted@],
        removed is Some <==> old(map)@.contains_key(key@),
        removed is Some ==> removed->0@ == old(map)@[key@],
{
}

/// Law: a new map holds nothing.
pub proof fn law_new_is_empty<V: View>(map: &StringMap<V>, wanted: &str, found: Option<&V>)
    requires
        call_ensures(StringMap::<V>::new, (), *map),
        call_ensures(StringMap::<V>::get, (map, wanted), found),
    ensures
        found is None,
{
}

} // verus!
