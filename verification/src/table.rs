//! The table of stored secrets: a list of named entries kept strictly sorted
//! by name, so that every name occurs once and listing the names gives them
//! in order.
use crate::key_order::{compare_keys, lemma_name_lt_transitive, lemma_name_lt_trichotomy, name_lt, KeyOrder};
use vstd::prelude::*;
use zeroize::Zeroize;

verus! {

/// What a stored secret is, mathematically: its sealed bytes and the time
/// (in nanoseconds on the daemon's clock) it was last stored or read.
#[verifier::ext_equal]
pub struct EntryView {
    pub blob: Seq<u8>,
    pub last_accessed: u128,
}

/// One stored secret: its encrypted blob and the time it was last accessed.
pub struct SecretEntry {
    /// The encrypted secret blob.
    pub blob: Vec<u8>,
    /// Nanoseconds on the daemon's clock of the last successful read or store.
    pub last_accessed: u128,
}

impl View for SecretEntry {
    type V = EntryView;

    open spec fn view(&self) -> EntryView {
        EntryView { blob: self.blob@, last_accessed: self.last_accessed }
    }
}

/// A named entry, mathematically.
pub type NamedEntry = (Seq<char>, EntryView);

/// Every name comes strictly before every later one.
pub open spec fn names_sorted(s: Seq<NamedEntry>) -> bool {
    forall|i: int, j: int| #![trigger s[i], s[j]] 0 <= i < j < s.len() ==> name_lt(s[i].0, s[j].0)
}

/// Some entry of `s` carries the name `k`.
pub open spec fn has_name(s: Seq<NamedEntry>, k: Seq<char>) -> bool {
    exists|i: int| 0 <= i < s.len() && #[trigger] s[i].0 == k
}

/// An index of `s` whose entry carries the name `k`.
pub open spec fn index_of_name(s: Seq<NamedEntry>, k: Seq<char>) -> int {
    choose|i: int| 0 <= i < s.len() && #[trigger] s[i].0 == k
}

/// The map from names to entries that a list of named entries stands for.
pub open spec fn seq_to_map(s: Seq<NamedEntry>) -> Map<Seq<char>, EntryView> {
    Map::new(|k: Seq<char>| has_name(s, k), |k: Seq<char>| s[index_of_name(s, k)].1)
}

/// The names of a list of entries, in order.
pub open spec fn names_of(s: Seq<NamedEntry>) -> Seq<Seq<char>> {
    Seq::new(s.len(), |i: int| s[i].0)
}

/// Time elapsed from `then` to `now`, zero when `then` is later (a clock
/// reading never goes back, so this only guards the arithmetic).
pub open spec fn elapsed_nanos(now: u128, then: u128) -> u128 {
    if now > then {
        (now - then) as u128
    } else {
        0
    }
}

/// An entry has outlived the idle timeout.
pub open spec fn is_expired(e: EntryView, now: u128, timeout_nanos: u128) -> bool {
    elapsed_nanos(now, e.last_accessed) > timeout_nanos
}

/// The entries of `s` that have not expired, in their order.
pub open spec fn fresh_entries(s: Seq<NamedEntry>, now: u128, timeout_nanos: u128) -> Seq<NamedEntry>
    decreases s.len(),
{
    if s.len() == 0 {
        s
    } else {
        let rest = fresh_entries(s.drop_last(), now, timeout_nanos);
        if is_expired(s.last().1, now, timeout_nanos) {
            rest
        } else {
            rest.push(s.last())
        }
    }
}

/// How many entries of `s` have expired.
pub open spec fn expired_count(s: Seq<NamedEntry>, now: u128, timeout_nanos: u128) -> nat
    decreases s.len(),
{
    if s.len() == 0 {
        0
    } else {
        expired_count(s.drop_last(), now, timeout_nanos) + if is_expired(
            s.last().1,
            now,
            timeout_nanos,
        ) {
            1nat
        } else {
            0nat
        }
    }
}

/// The least time elapsed since any entry of `s` was accessed, if any.
pub open spec fn least_elapsed(s: Seq<NamedEntry>, now: u128) -> Option<u128>
    decreases s.len(),
{
    if s.len() == 0 {
        None
    } else {
        let e = elapsed_nanos(now, s.last().1.last_accessed);
        match least_elapsed(s.drop_last(), now) {
            None => Some(e),
            Some(m) => Some(
                if e < m {
                    e
                } else {
                    m
                },
            ),
        }
    }
}

/// The least elapsed time is at most the time elapsed since each entry was
/// accessed, and is the time elapsed since some entry was accessed; there is
/// none exactly when there is no entry.
pub proof fn lemma_least_elapsed_is_min(s: Seq<NamedEntry>, now: u128)
    ensures
        least_elapsed(s, now) is None <==> s.len() == 0,
        least_elapsed(s, now) matches Some(m) ==> (forall|i: int|
            0 <= i < s.len() ==> m <= elapsed_nanos(now, #[trigger] s[i].1.last_accessed)),
        least_elapsed(s, now) matches Some(m) ==> (exists|i: int|
            0 <= i < s.len() && m == elapsed_nanos(now, #[trigger] s[i].1.last_accessed)),
    decreases s.len(),
{
    if s.len() > 0 {
        let d = s.drop_last();
        lemma_least_elapsed_is_min(d, now);
        let e = elapsed_nanos(now, s.last().1.last_accessed);
        assert(s[s.len() - 1] == s.last());
        match least_elapsed(d, now) {
            None => {
                assert(d.len() == 0);
            },
            Some(m) => {
                assert forall|i: int| 0 <= i < s.len() implies least_elapsed(s, now)->0 <= elapsed_nanos(
                    now,
                    #[trigger] s[i].1.last_accessed,
                ) by {
                    if i < s.len() - 1 {
                        assert(d[i] == s[i]);
                    }
                }
                if e < m {
                    assert(least_elapsed(s, now)->0 == elapsed_nanos(now, s[s.len() - 1].1.last_accessed));
                } else {
                    let j = choose|j: int| 0 <= j < d.len() && m == elapsed_nanos(now, #[trigger] d[j].1.last_accessed);
                    assert(d[j] == s[j]);
                    assert(least_elapsed(s, now)->0 == elapsed_nanos(now, s[j].1.last_accessed));
                }
            },
        }
    }
}

/// In a sorted list, entry `i` is what its name maps to.
pub proof fn lemma_map_at(s: Seq<NamedEntry>, i: int)
    requires
        names_sorted(s),
        0 <= i < s.len(),
    ensures
        seq_to_map(s).dom().contains(s[i].0),
        seq_to_map(s)[s[i].0] == s[i].1,
{
    assert(has_name(s, s[i].0));
    let j = index_of_name(s, s[i].0);
    if j != i {
        lemma_name_lt_trichotomy(s[i].0, s[i].0);
        if j < i {
            assert(name_lt(s[j].0, s[i].0));
        } else {
            assert(name_lt(s[i].0, s[j].0));
        }
    }
}

/// A sorted list stands for map `m` when it holds exactly `m`'s pairs.
pub proof fn lemma_map_ext(s: Seq<NamedEntry>, m: Map<Seq<char>, EntryView>)
    requires
        names_sorted(s),
        forall|i: int| 0 <= i < s.len() ==> #[trigger] m.dom().contains(s[i].0) && m[s[i].0] == s[i].1,
        forall|k: Seq<char>| #[trigger] m.dom().contains(k) ==> has_name(s, k),
    ensures
        seq_to_map(s) == m,
{
    assert forall|k: Seq<char>| #[trigger] seq_to_map(s).dom().contains(k) <==> m.dom().contains(k) by {
        if has_name(s, k) {
            let i = index_of_name(s, k);
            assert(m.dom().contains(s[i].0));
        }
    }
    assert forall|k: Seq<char>| #[trigger] seq_to_map(s).dom().contains(k) implies seq_to_map(s)[k]
        == m[k] by {
        let i = index_of_name(s, k);
        lemma_map_at(s, i);
        assert(m.dom().contains(s[i].0));
    }
    assert(seq_to_map(s) =~= m);
}

/// The names of a sorted list are the domain of its map.
pub proof fn lemma_names_are_domain(s: Seq<NamedEntry>)
    requires
        names_sorted(s),
    ensures
        names_of(s).to_set() == seq_to_map(s).dom(),
        names_of(s).no_duplicates(),
        seq_to_map(s).dom().len() == s.len(),
        seq_to_map(s).dom().finite(),
{
    let n = names_of(s);
    assert forall|k: Seq<char>| #[trigger] n.to_set().contains(k) <==> seq_to_map(s).dom().contains(k) by {
        if n.contains(k) {
            let i = choose|i: int| 0 <= i < n.len() && n[i] == k;
            assert(s[i].0 == k);
        }
        if has_name(s, k) {
            let i = index_of_name(s, k);
            assert(n[i] == k);
        }
    }
    assert(n.to_set() =~= seq_to_map(s).dom());
    assert forall|i: int, j: int| 0 <= i < n.len() && 0 <= j < n.len() && i != j implies n[i]
        != n[j] by {
        lemma_name_lt_trichotomy(s[i].0, s[j].0);
        if i < j {
            assert(name_lt(s[i].0, s[j].0));
        } else {
            assert(name_lt(s[j].0, s[i].0));
        }
    }
    n.unique_seq_to_set();
}

/// Putting a new name at its sorted position adds it to the map.
pub proof fn lemma_insert_new(s: Seq<NamedEntry>, p: int, k: Seq<char>, v: EntryView)
    requires
        names_sorted(s),
        0 <= p <= s.len(),
        forall|j: int| 0 <= j < p ==> name_lt(#[trigger] s[j].0, k),
        forall|j: int| p <= j < s.len() ==> name_lt(k, #[trigger] s[j].0),
    ensures
        names_sorted(s.insert(p, (k, v))),
        seq_to_map(s.insert(p, (k, v))) == seq_to_map(s).insert(k, v),
{
    let t = s.insert(p, (k, v));
    assert forall|i: int, j: int| #![trigger t[i], t[j]] 0 <= i < j < t.len() implies name_lt(
        t[i].0,
        t[j].0,
    ) by {
        if i < p && j > p {
            lemma_name_lt_transitive(s[i].0, k, s[j - 1].0);
        }
    }
    let m = seq_to_map(s).insert(k, v);
    assert forall|i: int| 0 <= i < t.len() implies #[trigger] m.dom().contains(t[i].0) && m[t[i].0]
        == t[i].1 by {
        if i < p {
            lemma_map_at(s, i);
            lemma_name_lt_trichotomy(s[i].0, k);
        } else if i > p {
            lemma_map_at(s, i - 1);
            lemma_name_lt_trichotomy(s[i - 1].0, k);
        }
    }
    assert forall|key: Seq<char>| #[trigger] m.dom().contains(key) implies has_name(t, key) by {
        if key == k {
            assert(t[p].0 == key);
        } else {
            let i = index_of_name(s, key);
            if i < p {
                assert(t[i].0 == key);
            } else {
                assert(t[i + 1].0 == key);
            }
        }
    }
    lemma_map_ext(t, m);
}

/// Replacing the entry at `i` (keeping its name) replaces the name's value.
pub proof fn lemma_update_at(s: Seq<NamedEntry>, i: int, v: EntryView)
    requires
        names_sorted(s),
        0 <= i < s.len(),
    ensures
        names_sorted(s.update(i, (s[i].0, v))),
        seq_to_map(s.update(i, (s[i].0, v))) == seq_to_map(s).insert(s[i].0, v),
{
    let t = s.update(i, (s[i].0, v));
    assert forall|a: int, b: int| #![trigger t[a], t[b]] 0 <= a < b < t.len() implies name_lt(
        t[a].0,
        t[b].0,
    ) by {
        assert(name_lt(s[a].0, s[b].0));
    }
    let m = seq_to_map(s).insert(s[i].0, v);
    assert forall|j: int| 0 <= j < t.len() implies #[trigger] m.dom().contains(t[j].0) && m[t[j].0]
        == t[j].1 by {
        if j != i {
            lemma_map_at(s, j);
            lemma_name_lt_trichotomy(s[i].0, s[j].0);
            if j < i {
                assert(name_lt(s[j].0, s[i].0));
            } else {
                assert(name_lt(s[i].0, s[j].0));
            }
        }
    }
    assert forall|key: Seq<char>| #[trigger] m.dom().contains(key) implies has_name(t, key) by {
        if key != s[i].0 {
            let j = index_of_name(s, key);
            assert(t[j].0 == key);
        } else {
            assert(t[i].0 == key);
        }
    }
    lemma_map_ext(t, m);
}

/// Removing the entry at `i` removes its name from the map.
pub proof fn lemma_remove_at(s: Seq<NamedEntry>, i: int)
    requires
        names_sorted(s),
        0 <= i < s.len(),
    ensures
        names_sorted(s.remove(i)),
        seq_to_map(s.remove(i)) == seq_to_map(s).remove(s[i].0),
{
    let t = s.remove(i);
    assert forall|a: int, b: int| #![trigger t[a], t[b]] 0 <= a < b < t.len() implies name_lt(
        t[a].0,
        t[b].0,
    ) by {
        let a2 = if a < i {
            a
        } else {
            a + 1
        };
        let b2 = if b < i {
            b
        } else {
            b + 1
        };
        assert(name_lt(s[a2].0, s[b2].0));
    }
    let m = seq_to_map(s).remove(s[i].0);
    assert forall|j: int| 0 <= j < t.len() implies #[trigger] m.dom().contains(t[j].0) && m[t[j].0]
        == t[j].1 by {
        let j2 = if j < i {
            j
        } else {
            j + 1
        };
        lemma_map_at(s, j2);
        lemma_name_lt_trichotomy(s[i].0, s[j2].0);
        if j2 < i {
            assert(name_lt(s[j2].0, s[i].0));
        } else {
            assert(name_lt(s[i].0, s[j2].0));
        }
    }
    assert forall|key: Seq<char>| #[trigger] m.dom().contains(key) implies has_name(t, key) by {
        let j = index_of_name(s, key);
        if j < i {
            assert(t[j].0 == key);
        } else {
            assert(t[j - 1].0 == key);
        }
    }
    lemma_map_ext(t, m);
}

/// A name absent from a list is absent from its map.
pub proof fn lemma_absent(s: Seq<NamedEntry>, k: Seq<char>)
    requires
        forall|j: int| 0 <= j < s.len() ==> #[trigger] s[j].0 != k,
    ensures
        !seq_to_map(s).dom().contains(k),
{
}

/// Calls `Zeroize::zeroize` on the byte vector: per the crate's source it
/// overwrites every byte (and the spare capacity) with zero, then clears the
/// vector, so it is left empty.
#[verifier::external_body]
pub(crate) fn wipe_bytes(bytes: &mut Vec<u8>)
    ensures
        final(bytes)@ == Seq::<u8>::empty(),
{
    bytes.zeroize();
}

/// The stored secrets, strictly sorted by name.
pub struct SecretTable {
    entries: Vec<(String, SecretEntry)>,
}

impl View for SecretTable {
    type V = Seq<NamedEntry>;

    closed spec fn view(&self) -> Seq<NamedEntry> {
        Seq::new(self.entries@.len(), |i: int| (self.entries@[i].0@, self.entries@[i].1@))
    }
}

impl SecretTable {
    /// The table's names are strictly sorted (so each occurs once).
    pub open spec fn wf(&self) -> bool {
        names_sorted(self@)
    }

    /// The table as a map from names to entries.
    pub open spec fn map(&self) -> Map<Seq<char>, EntryView> {
        seq_to_map(self@)
    }

    /// An empty table.
    pub fn new() -> (t: Self)
        ensures
            t.wf(),
            t@ == Seq::<NamedEntry>::empty(),
            t.map() == Map::<Seq<char>, EntryView>::empty(),
    {
        let t = SecretTable { entries: Vec::new() };
        assert(t@ =~= Seq::<NamedEntry>::empty());
        assert(t.map() =~= Map::<Seq<char>, EntryView>::empty());
        t
    }

    /// Number of stored secrets.
    pub fn len(&self) -> (n: usize)
        ensures
            n == self@.len(),
    {
        self.entries.len()
    }

    /// Where `name` stands: `Ok(i)` when entry `i` carries it, otherwise
    /// `Err(p)` with `p` the position at which it would be inserted.
    pub fn find(&self, name: &str) -> (r: Result<usize, usize>)
        requires
            self.wf(),
        ensures
            match r {
                Ok(i) => i < self@.len() && self@[i as int].0 == name@,
                Err(p) => {
                    &&& p <= self@.len()
                    &&& forall|j: int| 0 <= j < p ==> name_lt(#[trigger] self@[j].0, name@)
                    &&& forall|j: int| p <= j < self@.len() ==> name_lt(name@, #[trigger] self@[j].0)
                },
            },
            r is Ok <==> self.map().dom().contains(name@),
    {
        let mut i: usize = 0;
        while i < self.entries.len()
            invariant
                self.wf(),
                i <= self@.len(),
                self@.len() == self.entries@.len(),
                forall|j: int| 0 <= j < i ==> name_lt(#[trigger] self@[j].0, name@),
            decreases self@.len() - i,
        {
            let here = &self.entries[i].0;
            match compare_keys(here.as_str(), name) {
                KeyOrder::Before => {
                    i = i + 1;
                },
                KeyOrder::Same => {
                    proof {
                        lemma_map_at(self@, i as int);
                    }
                    return Ok(i);
                },
                KeyOrder::After => {
                    proof {
                        assert forall|j: int| i <= j < self@.len() implies name_lt(
                            name@,
                            #[trigger] self@[j].0,
                        ) by {
                            if j > i {
                                lemma_name_lt_transitive(name@, self@[i as int].0, self@[j].0);
                            }
                        }
                        self.lemma_not_found(name@, i as int);
                    }
                    return Err(i);
                },
            }
        }
        proof {
            self.lemma_not_found(name@, i as int);
        }
        Err(i)
    }

    proof fn lemma_not_found(&self, k: Seq<char>, p: int)
        requires
            0 <= p <= self@.len(),
            forall|j: int| 0 <= j < p ==> name_lt(#[trigger] self@[j].0, k),
            forall|j: int| p <= j < self@.len() ==> name_lt(k, #[trigger] self@[j].0),
        ensures
            !self.map().dom().contains(k),
    {
        assert forall|j: int| 0 <= j < self@.len() implies #[trigger] self@[j].0 != k by {
            lemma_name_lt_trichotomy(k, k);
            if j < p {
                assert(name_lt(self@[j].0, k));
            } else {
                assert(name_lt(k, self@[j].0));
            }
        }
        lemma_absent(self@, k);
    }

    /// The entry stored under `name`, if any.
    pub fn get(&self, name: &str) -> (r: Option<&SecretEntry>)
        requires
            self.wf(),
        ensures
            r is Some <==> self.map().dom().contains(name@),
            r matches Some(e) ==> e@ == self.map()[name@],
    {
        match self.find(name) {
            Ok(i) => {
                proof {
                    lemma_map_at(self@, i as int);
                }
                Some(&self.entries[i].1)
            },
            Err(_) => None,
        }
    }

    /// Store `entry` under `name`, replacing any entry stored there before.
    pub fn insert(&mut self, name: String, entry: SecretEntry)
        requires
            old(self).wf(),
        ensures
            final(self).wf(),
            final(self).map() == old(self).map().insert(name@, entry@),
    {
        let ghost k = name@;
        let ghost v = entry@;
        match self.find(name.as_str()) {
            Ok(i) => {
                proof {
                    lemma_update_at(self@, i as int, v);
                }
                let ghost before = self@;
                self.entries.set(i, (name, entry));
                assert(self@ =~= before.update(i as int, (before[i as int].0, v)));
            },
            Err(p) => {
                proof {
                    lemma_insert_new(self@, p as int, k, v);
                }
                let ghost before = self@;
                self.entries.insert(p, (name, entry));
                assert(self@ =~= before.insert(p as int, (k, v)));
            },
        }
    }

    /// Set the access time of the entry stored under `name`.
    pub fn touch(&mut self, name: &str, now: u128)
        requires
            old(self).wf(),
            old(self).map().dom().contains(name@),
        ensures
            final(self).wf(),
            final(self).map() == old(self).map().insert(
                name@,
                EntryView { blob: old(self).map()[name@].blob, last_accessed: now },
            ),
    {
        match self.find(name) {
            Ok(i) => {
                let ghost before = self@;
                proof {
                    lemma_map_at(before, i as int);
                    lemma_update_at(
                        before,
                        i as int,
                        EntryView { blob: before[i as int].1.blob, last_accessed: now },
                    );
                }
                let (n, e) = self.entries.remove(i);
                let SecretEntry { blob, last_accessed: _ } = e;
                self.entries.insert(i, (n, SecretEntry { blob, last_accessed: now }));
                assert(self@ =~= before.update(
                    i as int,
                    (before[i as int].0, EntryView { blob: before[i as int].1.blob, last_accessed: now }),
                ));
            },
            Err(_) => {},
        }
    }

    /// Take the entry stored under `name` out of the table.
    pub fn remove(&mut self, name: &str) -> (r: Option<SecretEntry>)
        requires
            old(self).wf(),
        ensures
            final(self).wf(),
            r is Some <==> old(self).map().dom().contains(name@),
            r matches Some(e) ==> e@ == old(self).map()[name@],
            final(self).map() == old(self).map().remove(name@),
            r is None ==> final(self)@ == old(self)@,
    {
        match self.find(name) {
            Ok(i) => {
                let ghost before = self@;
                proof {
                    lemma_map_at(before, i as int);
                    lemma_remove_at(before, i as int);
                }
                let (_n, e) = self.entries.remove(i);
                assert(self@ =~= before.remove(i as int));
                Some(e)
            },
            Err(_) => {
                assert(self.map().remove(name@) =~= self.map());
                None
            },
        }
    }

    /// Remove and zeroize every entry that has outlived the idle timeout.
    /// Returns the number of entries removed.
    pub fn remove_expired(&mut self, now: u128, timeout_nanos: u128) -> (n: usize)
        requires
            old(self).wf(),
        ensures
            final(self).wf(),
            final(self)@ == fresh_entries(old(self)@, now, timeout_nanos),
            n == expired_count(old(self)@, now, timeout_nanos),
    {
        let ghost start = self@;
        let ghost mut k: int = 0;
        let mut i: usize = 0;
        let mut removed: usize = 0;
        let initial_len: usize = self.entries.len();
        assert(start.len() == initial_len);
        assert(start.take(0) =~= Seq::<NamedEntry>::empty());
        assert(start.skip(0) =~= start);
        assert(self@ =~= fresh_entries(start.take(0), now, timeout_nanos) + start.skip(0));
        while i < self.entries.len()
            invariant
                self.wf(),
                0 <= k <= start.len(),
                self@.len() == self.entries@.len(),
                self@ == fresh_entries(start.take(k), now, timeout_nanos) + start.skip(k),
                i == fresh_entries(start.take(k), now, timeout_nanos).len(),
                removed == expired_count(start.take(k), now, timeout_nanos),
                removed <= k,
                start.len() <= usize::MAX,
            decreases self@.len() - i,
        {
            let ghost before = self@;
            let ghost fresh = fresh_entries(start.take(k), now, timeout_nanos);
            assert(before[i as int] == start[k]);
            assert(start.take(k + 1).drop_last() =~= start.take(k));
            assert(start.take(k + 1).last() == start[k]);
            assert(start.skip(k).drop_first() =~= start.skip(k + 1));
            let last = self.entries[i].1.last_accessed;
            let elapsed: u128 = if now > last {
                now - last
            } else {
                0
            };
            if elapsed > timeout_nanos {
                proof {
                    lemma_remove_at(before, i as int);
                }
                let (_n, mut e) = self.entries.remove(i);
                wipe_bytes(&mut e.blob);
                removed = removed + 1;
                assert(self@ =~= before.remove(i as int));
                assert(before.remove(i as int) =~= fresh + start.skip(k + 1));
            } else {
                i = i + 1;
                assert(before =~= fresh.push(start[k]) + start.skip(k + 1));
            }
            proof {
                k = k + 1;
            }
        }
        assert(start.skip(k).len() == 0);
        assert(start.take(k) =~= start);
        assert(self@ =~= fresh_entries(start, now, timeout_nanos));
        removed
    }

    /// Remove and zeroize every entry.
    pub fn wipe_all(&mut self)
        requires
            old(self).wf(),
        ensures
            final(self).wf(),
            final(self)@ == Seq::<NamedEntry>::empty(),
            final(self).map() == Map::<Seq<char>, EntryView>::empty(),
    {
        while self.entries.len() > 0
            invariant
                true,
            decreases self.entries@.len(),
        {
            match self.entries.pop() {
                Some((_n, mut e)) => wipe_bytes(&mut e.blob),
                None => {},
            }
        }
        assert(self@ =~= Seq::<NamedEntry>::empty());
        assert(self.map() =~= Map::<Seq<char>, EntryView>::empty());
    }

    /// The stored names, in order.
    pub fn names(&self) -> (r: Vec<String>)
        ensures
            r@.len() == self@.len(),
            forall|i: int| 0 <= i < r@.len() ==> #[trigger] r@[i]@ == self@[i].0,
    {
        let mut r: Vec<String> = Vec::new();
        let mut i: usize = 0;
        while i < self.entries.len()
            invariant
                i <= self@.len(),
                self@.len() == self.entries@.len(),
                r@.len() == i,
                forall|j: int| 0 <= j < i ==> #[trigger] r@[j]@ == self@[j].0,
            decreases self@.len() - i,
        {
            r.push(self.entries[i].0.clone());
            i = i + 1;
        }
        r
    }

    /// The least time elapsed since any entry was accessed, if there is one.
    pub fn least_elapsed(&self, now: u128) -> (r: Option<u128>)
        ensures
            r == least_elapsed(self@, now),
            r is None <==> self@.len() == 0,
            r matches Some(m) ==> (forall|i: int|
                0 <= i < self@.len() ==> m <= elapsed_nanos(now, #[trigger] self@[i].1.last_accessed)),
            r matches Some(m) ==> (exists|i: int|
                0 <= i < self@.len() && m == elapsed_nanos(now, #[trigger] self@[i].1.last_accessed)),
    {
        proof {
            lemma_least_elapsed_is_min(self@, now);
        }
        let mut best: Option<u128> = None;
        let mut i: usize = 0;
        while i < self.entries.len()
            invariant
                i <= self@.len(),
                self@.len() == self.entries@.len(),
                best == least_elapsed(self@.take(i as int), now),
            decreases self@.len() - i,
        {
            let last = self.entries[i].1.last_accessed;
            let e: u128 = if now > last {
                now - last
            } else {
                0
            };
            best = match best {
                None => Some(e),
                Some(m) => Some(
                    if e < m {
                        e
                    } else {
                        m
                    },
                ),
            };
            assert(self@.take(i + 1).drop_last() =~= self@.take(i as int));
            i = i + 1;
        }
        assert(self@.take(i as int) =~= self@);
        best
    }
}

} // verus!
