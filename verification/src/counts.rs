//! A small counter map from endpoint paths to hit counts.
//!
//! The store keeps one counter per route template, both all-time and inside
//! each rolling-window bucket. It is represented as an association list with
//! unique keys and viewed as a mathematical map from character sequences to
//! counts.

use vstd::prelude::*;

verus! {

/// Compares two string slices character by character.
pub fn str_eq(a: &str, b: &str) -> (r: bool)
    ensures
        r == (a@ == b@),
{
    let alen = a.unicode_len();
    let blen = b.unicode_len();
    if alen != blen {
        proof {
            assert(a@ != b@);
        }
        return false;
    }
    let mut i: usize = 0;
    while i < alen
        invariant
            i <= alen,
            alen == a@.len(),
            alen == b@.len(),
            forall|j: int| 0 <= j < i ==> a@[j] == b@[j],
        decreases alen - i,
    {
        if a.get_char(i) != b.get_char(i) {
            return false;
        }
        i = i + 1;
    }
    proof {
        assert(a@ =~= b@);
    }
    true
}

/// A map from endpoint paths to hit counters, stored as an association list
/// with unique keys.
pub struct CountMap {
    entries: Vec<(String, u64)>,
}

/// The map an entry list denotes, read left to right.
pub open spec fn map_of(s: Seq<(String, u64)>) -> Map<Seq<char>, nat>
    decreases s.len(),
{
    if s.len() == 0 {
        Map::empty()
    } else {
        map_of(s.drop_last()).insert(s.last().0@, s.last().1 as nat)
    }
}

/// No two entries share a key.
pub open spec fn keys_unique(s: Seq<(String, u64)>) -> bool {
    forall|i: int, j: int| 0 <= i < j < s.len() ==> s[i].0@ != s[j].0@
}

/// The map after one more hit on `k`: the counter is created at 1 or
/// incremented by 1.
pub open spec fn spec_bump(m: Map<Seq<char>, nat>, k: Seq<char>) -> Map<Seq<char>, nat> {
    spec_add_count(m, k, 1)
}

/// The map after `amount` more hits on `k`.
pub open spec fn spec_add_count(m: Map<Seq<char>, nat>, k: Seq<char>, amount: nat) -> Map<
    Seq<char>,
    nat,
> {
    if m.contains_key(k) {
        m.insert(k, m[k] + amount)
    } else {
        m.insert(k, amount)
    }
}

pub proof fn lemma_map_of_contains(s: Seq<(String, u64)>, k: Seq<char>)
    ensures
        map_of(s).contains_key(k) <==> exists|i: int| 0 <= i < s.len() && s[i].0@ == k,
    decreases s.len(),
{
    if s.len() > 0 {
        lemma_map_of_contains(s.drop_last(), k);
        if s.last().0@ == k {
            assert(s[s.len() - 1].0@ == k);
        } else if map_of(s).contains_key(k) {
            let i = choose|i: int| 0 <= i < s.drop_last().len() && s.drop_last()[i].0@ == k;
            assert(s[i].0@ == k);
        } else {
            assert forall|i: int| 0 <= i < s.len() implies s[i].0@ != k by {
                if i < s.len() - 1 {
                    assert(s.drop_last()[i].0@ == s[i].0@);
                }
            }
        }
    }
}

pub proof fn lemma_map_of_get(s: Seq<(String, u64)>, i: int)
    requires
        keys_unique(s),
        0 <= i < s.len(),
    ensures
        map_of(s).contains_key(s[i].0@),
        map_of(s)[s[i].0@] == s[i].1 as nat,
    decreases s.len(),
{
    if i < s.len() - 1 {
        assert(keys_unique(s.drop_last()));
        assert(s.drop_last()[i] == s[i]);
        lemma_map_of_get(s.drop_last(), i);
        assert(s[i].0@ != s.last().0@);
    }
}

proof fn lemma_map_of_update(s: Seq<(String, u64)>, i: int, v: u64)
    requires
        keys_unique(s),
        0 <= i < s.len(),
    ensures
        map_of(s.update(i, (s[i].0, v))) == map_of(s).insert(s[i].0@, v as nat),
    decreases s.len(),
{
    let t = s.update(i, (s[i].0, v));
    if i == s.len() - 1 {
        assert(t.drop_last() =~= s.drop_last());
        assert(map_of(t) =~= map_of(s).insert(s[i].0@, v as nat));
    } else {
        assert(keys_unique(s.drop_last()));
        assert(s.drop_last()[i] == s[i]);
        lemma_map_of_update(s.drop_last(), i, v);
        assert(t.drop_last() =~= s.drop_last().update(i, (s[i].0, v)));
        assert(t.last() == s.last());
        assert(s[i].0@ != s.last().0@);
        assert(map_of(t) =~= map_of(s).insert(s[i].0@, v as nat));
    }
}

impl CountMap {
    /// The entry list behind the map; uniqueness of its keys is the type's
    /// well-formedness.
    pub closed spec fn entries_seq(&self) -> Seq<(String, u64)> {
        self.entries@
    }

    /// Keys are unique, so the entry list and the map view agree.
    pub open spec fn wf(&self) -> bool {
        keys_unique(self.entries_seq())
    }

    /// The denoted map from path to count.
    pub closed spec fn view(&self) -> Map<Seq<char>, nat> {
        map_of(self.entries@)
    }

    /// The map view is exactly the map the entry list denotes.
    pub proof fn lemma_view_entries(&self)
        ensures
            self@ == map_of(self.entries_seq()),
    {
    }

    /// Creates an empty counter map.
    pub fn new() -> (r: Self)
        ensures
            r.wf(),
            r@ == Map::<Seq<char>, nat>::empty(),
    {
        CountMap { entries: Vec::new() }
    }

    /// The number of distinct paths that have a counter.
    pub fn num_entries(&self) -> (r: usize)
        ensures
            r == self.entries_seq().len(),
    {
        self.entries.len()
    }

    /// Reads the entry at a position in the list; every entry is in the map.
    pub fn entry_at(&self, i: usize) -> (r: (&String, u64))
        requires
            self.wf(),
            i < self.entries_seq().len(),
        ensures
            r.0@ == self.entries_seq()[i as int].0@,
            r.1 == self.entries_seq()[i as int].1,
            self@.contains_key(r.0@),
            self@[r.0@] == r.1 as nat,
    {
        proof {
            lemma_map_of_get(self.entries@, i as int);
        }
        let e = &self.entries[i];
        (&e.0, e.1)
    }

    /// Whether no path has been counted yet.
    pub fn is_empty(&self) -> (r: bool)
        requires
            self.wf(),
        ensures
            r == (self@ == Map::<Seq<char>, nat>::empty()),
    {
        proof {
            if self.entries@.len() > 0 {
                lemma_map_of_get(self.entries@, 0);
                assert(self@.contains_key(self.entries@[0].0@));
                assert(self@ != Map::<Seq<char>, nat>::empty());
            }
        }
        self.entries.len() == 0
    }

    /// Looks up the counter of a path, if it has one.
    pub fn get(&self, key: &str) -> (r: Option<u64>)
        requires
            self.wf(),
        ensures
            match r {
                Some(c) => self@.contains_key(key@) && c as nat == self@[key@],
                None => !self@.contains_key(key@),
            },
    {
        let n = self.entries.len();
        let mut i: usize = 0;
        while i < n
            invariant
                self.wf(),
                n == self.entries_seq().len(),
                i <= n,
                forall|j: int| 0 <= j < i ==> self.entries_seq()[j].0@ != key@,
            decreases n - i,
        {
            if str_eq(self.entries[i].0.as_str(), key) {
                proof {
                    lemma_map_of_get(self.entries@, i as int);
                }
                return Some(self.entries[i].1);
            }
            i = i + 1;
        }
        proof {
            lemma_map_of_contains(self.entries@, key@);
        }
        None
    }

    /// Adds `amount` hits to a path's counter, creating it if absent.
    pub fn add(&mut self, key: &str, amount: u64)
        requires
            old(self).wf(),
            old(self)@.contains_key(key@) ==> old(self)@[key@] + amount <= u64::MAX,
        ensures
            final(self).wf(),
            final(self)@ == spec_add_count(old(self)@, key@, amount as nat),
    {
        let n = self.entries.len();
        let mut i: usize = 0;
        while i < n
            invariant
                self == old(self),
                self.wf(),
                n == self.entries_seq().len(),
                i <= n,
                old(self)@.contains_key(key@) ==> old(self)@[key@] + amount <= u64::MAX,
                forall|j: int| 0 <= j < i ==> self.entries_seq()[j].0@ != key@,
            decreases n - i,
        {
            if str_eq(self.entries[i].0.as_str(), key) {
                let v = self.entries[i].1;
                proof {
                    lemma_map_of_get(self.entries@, i as int);
                    assert(self.entries@[i as int].0@ == key@);
                    assert(old(self)@.contains_key(key@));
                    assert(v as nat == old(self)@[key@]);
                    assert(v + amount <= u64::MAX);
                }
                self.entries[i].1 = v + amount;
                proof {
                    assert(self.entries@ =~= old(self).entries@.update(
                        i as int,
                        (old(self).entries@[i as int].0, (v + amount) as u64),
                    ));
                    lemma_map_of_update(old(self).entries@, i as int, (v + amount) as u64);
                    assert(final(self)@ == spec_add_count(old(self)@, key@, amount as nat));
                }
                return ;
            }
            i = i + 1;
        }
        proof {
            lemma_map_of_contains(self.entries@, key@);
        }
        let owned: String = key.to_owned();
        self.entries.push((owned, amount));
        proof {
            assert(self.entries@.drop_last() =~= old(self).entries@);
            assert(final(self)@ == spec_add_count(old(self)@, key@, amount as nat));
        }
    }

    /// Adds one hit to a path's counter, creating it at 1 if absent.
    pub fn increment(&mut self, key: &str)
        requires
            old(self).wf(),
            old(self)@.contains_key(key@) ==> old(self)@[key@] + 1 <= u64::MAX,
        ensures
            final(self).wf(),
            final(self)@ == spec_bump(old(self)@, key@),
    {
        self.add(key, 1);
    }

    /// Copies the map, counter for counter.
    pub fn duplicate(&self) -> (r: Self)
        requires
            self.wf(),
        ensures
            r.wf(),
            r@ == self@,
    {
        let n = self.entries.len();
        let mut out: Vec<(String, u64)> = Vec::new();
        let mut i: usize = 0;
        while i < n
            invariant
                n == self.entries_seq().len(),
                i <= n,
                out@ =~= self.entries_seq().subrange(0, i as int),
            decreases n - i,
        {
            let k = self.entries[i].0.clone();
            let v = self.entries[i].1;
            out.push((k, v));
            proof {
                assert(out@ =~= self.entries_seq().subrange(0, i + 1 as int));
            }
            i = i + 1;
        }
        proof {
            assert(out@ =~= self.entries@);
        }
        CountMap { entries: out }
    }
}

} // verus!
