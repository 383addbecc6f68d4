//! The keyspace engine: stored entries with optional deadlines, and the
//! registry of channel subscribers.

use vstd::prelude::*;
use crate::resp::{copy_range, same_bytes};

verus! {

/// A stored payload.
#[derive(Debug)]
pub enum DataType {
    /// An opaque byte string.
    String(Vec<u8>),
    /// An ordered sequence of byte strings (no command creates one yet).
    List(Vec<Vec<u8>>),
}

/// What a payload holds.
pub enum Payload {
    Text(Seq<u8>),
    Items(Seq<Seq<u8>>),
}

impl View for DataType {
    type V = Payload;

    open spec fn view(&self) -> Payload {
        match self {
            DataType::String(b) => Payload::Text(b@),
            DataType::List(l) => Payload::Items(l@.map_values(|x: Vec<u8>| x@)),
        }
    }
}

/// A stored entry: a payload and, when it has a time to live, the instant after
/// which it is expired (nanoseconds on the caller's monotonic clock).
#[derive(Debug)]
pub struct DbValue {
    pub data: DataType,
    pub expiry: Option<u64>,
}

/// What an entry holds.
pub struct Stored {
    pub payload: Payload,
    pub expiry: Option<u64>,
}

impl View for DbValue {
    type V = Stored;

    open spec fn view(&self) -> Stored {
        Stored { payload: self.data@, expiry: self.expiry }
    }
}

/// An entry is expired when it has a deadline and `now` is past it.
pub open spec fn expired(s: Stored, now: u64) -> bool {
    match s.expiry {
        Some(d) => now > d,
        None => false,
    }
}

impl DataType {
    /// A copy of the payload.
    pub fn duplicate(&self) -> (r: DataType)
        ensures
            r@ == self@,
    {
        match self {
            DataType::String(b) => DataType::String(copy_range(b.as_slice(), 0, b.len())),
            DataType::List(l) => {
                let mut out: Vec<Vec<u8>> = Vec::new();
                let mut i: usize = 0;
                while i < l.len()
                    invariant
                        i <= l.len(),
                        out.len() == i,
                        forall|j: int| 0 <= j < i ==> #[trigger] out@[j]@ == l@[j]@,
                    decreases l.len() - i,
                {
                    out.push(copy_range(l[i].as_slice(), 0, l[i].len()));
                    i = i + 1;
                }
                assert(out@.map_values(|x: Vec<u8>| x@) =~= l@.map_values(|x: Vec<u8>| x@));
                DataType::List(out)
            },
        }
    }
}

impl DbValue {
    /// An immortal entry holding a byte string.
    pub fn new_string(data: Vec<u8>) -> (r: DbValue)
        ensures
            r@ == (Stored { payload: Payload::Text(data@), expiry: None }),
    {
        DbValue { data: DataType::String(data), expiry: None }
    }

    /// An immortal entry holding a list of byte strings.
    pub fn new_list(data: Vec<Vec<u8>>) -> (r: DbValue)
        ensures
            r@ == (Stored { payload: Payload::Items(data@.map_values(|x: Vec<u8>| x@)), expiry: None }),
    {
        DbValue { data: DataType::List(data), expiry: None }
    }

    /// Whether the entry is expired at `now`.
    pub fn is_expired(&self, now: u64) -> (r: bool)
        ensures
            r == expired(self@, now),
    {
        match self.expiry {
            Some(d) => now > d,
            None => false,
        }
    }
}

// ---------------------------------------------------------------------------
// Association lists keyed by byte strings
// ---------------------------------------------------------------------------

pub open spec fn unique_keys<V>(s: Seq<(Vec<u8>, V)>) -> bool {
    forall|i: int, j: int|
        0 <= i < s.len() && 0 <= j < s.len() && i != j ==> #[trigger] s[i].0@ != #[trigger] s[j].0@
}

pub open spec fn has_key<V>(s: Seq<(Vec<u8>, V)>, k: Seq<u8>) -> bool {
    exists|i: int| 0 <= i < s.len() && #[trigger] s[i].0@ == k
}

pub open spec fn index_of<V>(s: Seq<(Vec<u8>, V)>, k: Seq<u8>) -> int {
    choose|i: int| 0 <= i < s.len() && #[trigger] s[i].0@ == k
}

/// The map that an association list stands for.
pub open spec fn key_map<V>(s: Seq<(Vec<u8>, V)>) -> Map<Seq<u8>, V> {
    Map::new(|k: Seq<u8>| has_key(s, k), |k: Seq<u8>| s[index_of(s, k)].1)
}

proof fn lemma_index_of<V>(s: Seq<(Vec<u8>, V)>, i: int)
    requires
        unique_keys(s),
        0 <= i < s.len(),
    ensures
        has_key(s, s[i].0@),
        index_of(s, s[i].0@) == i,
        key_map(s).contains_key(s[i].0@),
        key_map(s)[s[i].0@] == s[i].1,
{
    assert(has_key(s, s[i].0@));
    let j = index_of(s, s[i].0@);
    assert(s[j].0@ == s[i].0@);
}

proof fn lemma_key_map_set<V>(s: Seq<(Vec<u8>, V)>, i: int, k: Vec<u8>, v: V)
    requires
        unique_keys(s),
        0 <= i < s.len(),
        s[i].0@ == k@,
    ensures
        unique_keys(s.update(i, (k, v))),
        key_map(s.update(i, (k, v))) == key_map(s).insert(k@, v),
{
    let t = s.update(i, (k, v));
    assert forall|a: int, b: int| 0 <= a < t.len() && 0 <= b < t.len() && a != b implies #[trigger] t[a].0@
        != #[trigger] t[b].0@ by {
        assert(t[a].0@ == s[a].0@);
        assert(t[b].0@ == s[b].0@);
    }
    assert forall|x: Seq<u8>| #[trigger] has_key(t, x) <==> has_key(s, x) || x == k@ by {
        if has_key(s, x) {
            let j = index_of(s, x);
            assert(t[j].0@ == x);
        }
        if has_key(t, x) {
            let j = index_of(t, x);
            assert(s[j].0@ == x);
        }
        if x == k@ {
            assert(t[i].0@ == x);
        }
    }
    assert forall|x: Seq<u8>| has_key(t, x) implies key_map(t)[x] == key_map(s).insert(k@, v)[x] by {
        let j = index_of(t, x);
        lemma_index_of(t, j);
        if x != k@ {
            lemma_index_of(s, j);
        } else {
            lemma_index_of(t, i);
        }
    }
    assert(key_map(t) =~= key_map(s).insert(k@, v));
}

proof fn lemma_key_map_push<V>(s: Seq<(Vec<u8>, V)>, k: Vec<u8>, v: V)
    requires
        unique_keys(s),
        !has_key(s, k@),
    ensures
        unique_keys(s.push((k, v))),
        key_map(s.push((k, v))) == key_map(s).insert(k@, v),
{
    let t = s.push((k, v));
    assert forall|a: int, b: int| 0 <= a < t.len() && 0 <= b < t.len() && a != b implies #[trigger] t[a].0@
        != #[trigger] t[b].0@ by {
        if a < s.len() && b < s.len() {
            assert(t[a] == s[a]);
            assert(t[b] == s[b]);
        } else if a < s.len() {
            assert(t[a] == s[a]);
        } else if b < s.len() {
            assert(t[b] == s[b]);
        }
    }
    assert forall|x: Seq<u8>| #[trigger] has_key(t, x) <==> has_key(s, x) || x == k@ by {
        if has_key(s, x) {
            let j = index_of(s, x);
            assert(t[j].0@ == x);
        }
        if has_key(t, x) {
            let j = index_of(t, x);
            if j < s.len() {
                assert(s[j].0@ == x);
            }
        }
        if x == k@ {
            assert(t[s.len() as int].0@ == x);
        }
    }
    assert forall|x: Seq<u8>| has_key(t, x) implies key_map(t)[x] == key_map(s).insert(k@, v)[x] by {
        let j = index_of(t, x);
        lemma_index_of(t, j);
        if j < s.len() {
            assert(t[j] == s[j]);
            lemma_index_of(s, j);
        }
    }
    assert(key_map(t) =~= key_map(s).insert(k@, v));
}

/// An association list with unique keys stands for a finite map with one key per element.
proof fn lemma_key_map_len<V>(s: Seq<(Vec<u8>, V)>)
    requires
        unique_keys(s),
    ensures
        key_map(s).dom().finite(),
        key_map(s).dom().len() == s.len(),
    decreases s.len(),
{
    if s.len() == 0 {
        assert(key_map(s).dom() =~= Set::<Seq<u8>>::empty());
    } else {
        let front = s.drop_last();
        let last = s.last();
        assert forall|a: int, b: int| 0 <= a < front.len() && 0 <= b < front.len() && a != b implies #[trigger] front[a].0@
            != #[trigger] front[b].0@ by {
            assert(front[a] == s[a] && front[b] == s[b]);
        }
        assert(!has_key(front, last.0@)) by {
            if has_key(front, last.0@) {
                let j = index_of(front, last.0@);
                assert(s[j].0@ == s[s.len() - 1].0@);
            }
        }
        lemma_key_map_len(front);
        lemma_key_map_push(front, last.0, last.1);
        assert(front.push((last.0, last.1)) =~= s);
        assert(key_map(s).dom() =~= key_map(front).dom().insert(last.0@));
    }
}

proof fn lemma_key_map_remove<V>(s: Seq<(Vec<u8>, V)>, i: int)
    requires
        unique_keys(s),
        0 <= i < s.len(),
    ensures
        unique_keys(s.remove(i)),
        key_map(s.remove(i)) == key_map(s).remove(s[i].0@),
{
    let t = s.remove(i);
    let k = s[i].0@;
    assert forall|a: int| 0 <= a < t.len() implies #[trigger] t[a] == s[if a < i { a } else { a + 1 }] by {}
    assert forall|a: int, b: int| 0 <= a < t.len() && 0 <= b < t.len() && a != b implies #[trigger] t[a].0@
        != #[trigger] t[b].0@ by {
        assert(t[a] == s[if a < i { a } else { a + 1 }]);
        assert(t[b] == s[if b < i { b } else { b + 1 }]);
    }
    assert forall|x: Seq<u8>| #[trigger] has_key(t, x) <==> has_key(s, x) && x != k by {
        if has_key(s, x) && x != k {
            let j = index_of(s, x);
            if j < i {
                assert(t[j].0@ == x);
            } else {
                assert(j != i);
                assert(t[j - 1].0@ == x);
            }
        }
        if has_key(t, x) {
            let j = index_of(t, x);
            let o = if j < i { j } else { j + 1 };
            assert(s[o].0@ == x);
            assert(o != i);
        }
    }
    assert forall|x: Seq<u8>| has_key(t, x) implies key_map(t)[x] == key_map(s).remove(k)[x] by {
        let j = index_of(t, x);
        lemma_index_of(t, j);
        let o = if j < i { j } else { j + 1 };
        assert(t[j] == s[o]);
        lemma_index_of(s, o);
    }
    assert(key_map(t) =~= key_map(s).remove(k));
}

/// The position of `key` in the list.
fn find_key<V>(s: &Vec<(Vec<u8>, V)>, key: &Vec<u8>) -> (r: Option<usize>)
    ensures
        match r {
            Some(i) => i < s.len() && s@[i as int].0@ == key@,
            None => !has_key(s@, key@),
        },
{
    let mut i: usize = 0;
    while i < s.len()
        invariant
            i <= s.len(),
            forall|j: int| 0 <= j < i ==> s@[j].0@ != key@,
        decreases s.len() - i,
    {
        if same_bytes(s[i].0.as_slice(), key.as_slice()) {
            return Some(i);
        }
        i = i + 1;
    }
    None
}

// ---------------------------------------------------------------------------
// Outside items
// ---------------------------------------------------------------------------

#[verifier::external_type_specification]
#[verifier::external_body]
#[verifier::reject_recursive_types(T)]
pub struct ExSender<T>(tokio::sync::mpsc::Sender<T>);

/// Relies on tokio's `Sender::try_send`: it never waits; it queues the message
/// when the bounded queue has room and its receiver is still there, and returns
/// an error (full or closed) otherwise. Which of the two happens depends on the
/// receiving task, so nothing is promised about it.
#[verifier::external_body]
fn offer(tx: &tokio::sync::mpsc::Sender<Vec<u8>>, message: Vec<u8>) -> (delivered: bool) {
    tx.try_send(message).is_ok()
}

/// Relies on rand's `seq::index::sample`: `amount` distinct indices below
/// `length`, drawn at random from the thread's generator; it panics when
/// `amount > length`.
#[verifier::external_body]
fn random_indices(length: usize, amount: usize) -> (r: Vec<usize>)
    requires
        amount <= length,
    ensures
        r.len() == amount,
        forall|i: int| 0 <= i < r.len() ==> #[trigger] r[i] < length,
        forall|i: int, j: int| 0 <= i < j < r.len() ==> #[trigger] r[i] != #[trigger] r[j],
{
    rand::seq::index::sample(&mut rand::thread_rng(), length, amount).into_vec()
}

// ---------------------------------------------------------------------------
// Fan-out bookkeeping
// ---------------------------------------------------------------------------

/// The subscribers whose offer succeeded, in the order they had.
pub open spec fn kept<T>(subs: Seq<T>, delivered: Seq<bool>) -> Seq<T>
    decreases subs.len(),
{
    if subs.len() == 0 || delivered.len() == 0 {
        Seq::empty()
    } else {
        let front = kept(subs.drop_last(), delivered.drop_last());
        if delivered.last() {
            front.push(subs.last())
        } else {
            front
        }
    }
}

/// How many offers succeeded.
pub open spec fn count_true(d: Seq<bool>) -> nat
    decreases d.len(),
{
    if d.len() == 0 {
        0
    } else {
        count_true(d.drop_last()) + if d.last() {
            1nat
        } else {
            0nat
        }
    }
}

/// Drops from `subs` each subscriber whose entry in `delivered` is false.
pub fn retain_delivered<T>(subs: &mut Vec<T>, delivered: &Vec<bool>)
    requires
        old(subs).len() == delivered.len(),
    ensures
        final(subs)@ == kept(old(subs)@, delivered@),
{
    let ghost s0 = subs@;
    let ghost d = delivered@;
    let mut i: usize = 0;
    let mut j: usize = 0;
    assert(s0.take(0) =~= Seq::<T>::empty());
    assert(s0.skip(0) =~= s0);
    while j < delivered.len()
        invariant
            j <= delivered.len() == s0.len(),
            d == delivered@,
            i <= j,
            i == kept(s0.take(j as int), d.take(j as int)).len(),
            subs@ == kept(s0.take(j as int), d.take(j as int)) + s0.skip(j as int),
        decreases delivered.len() - j,
    {
        proof {
            assert(s0.take(j + 1).drop_last() =~= s0.take(j as int));
            assert(d.take(j + 1).drop_last() =~= d.take(j as int));
            assert(s0.skip(j as int)[0] == s0[j as int]);
        }
        if delivered[j] {
            i = i + 1;
            assert(subs@ =~= kept(s0.take(j + 1), d.take(j + 1)) + s0.skip(j + 1));
        } else {
            subs.remove(i);
            assert(subs@ =~= kept(s0.take(j + 1), d.take(j + 1)) + s0.skip(j + 1));
        }
        j = j + 1;
    }
    assert(s0.take(s0.len() as int) =~= s0);
    assert(d.take(d.len() as int) =~= d);
    assert(subs@ =~= kept(s0, d));
}

/// The subscribers of a channel in a registry (none when it was never used).
pub open spec fn subscribers_of<T>(m: Map<Seq<u8>, Seq<T>>, c: Seq<u8>) -> Seq<T> {
    if m.contains_key(c) {
        m[c]
    } else {
        Seq::empty()
    }
}

/// The keys among `keys` whose entries in `m` are expired at `now`.
pub open spec fn expired_among(m: Map<Seq<u8>, Stored>, keys: Seq<Seq<u8>>, now: u64) -> Set<Seq<u8>> {
    Set::new(|k: Seq<u8>| keys.contains(k) && m.contains_key(k) && expired(m[k], now))
}

// ---------------------------------------------------------------------------
// The engine
// ---------------------------------------------------------------------------

/// The shared state: stored entries and channel subscribers, each keyed by a
/// byte string that is unique in its list.
///
/// Both are association lists in a `Vec` rather than std maps. vstd describes
/// `HashMap` and `BTreeMap` lookups only for keys whose hashing and ordering
/// it models (integers), not for byte-string keys, so the `Map` views below
/// could not be proved on a std map. The lists keep every operation provable,
/// at the price of lookups that take time linear in the number of keys.
pub struct Database {
    entries: Vec<(Vec<u8>, DbValue)>,
    channels: Vec<(Vec<u8>, Vec<tokio::sync::mpsc::Sender<Vec<u8>>>)>,
}

impl Database {
    pub closed spec fn wf(&self) -> bool {
        unique_keys(self.entries@) && unique_keys(self.channels@)
    }

    /// The keyspace.
    pub closed spec fn data(&self) -> Map<Seq<u8>, Stored> {
        key_map(self.entries@).map_values(|v: DbValue| v@)
    }

    /// The channel registry.
    pub closed spec fn subscribers(&self) -> Map<Seq<u8>, Seq<tokio::sync::mpsc::Sender<Vec<u8>>>> {
        key_map(self.channels@).map_values(|v: Vec<tokio::sync::mpsc::Sender<Vec<u8>>>| v@)
    }

    /// An empty keyspace and registry.
    pub fn new() -> (r: Database)
        ensures
            r.wf(),
            r.data() == Map::<Seq<u8>, Stored>::empty(),
            r.subscribers() == Map::<Seq<u8>, Seq<tokio::sync::mpsc::Sender<Vec<u8>>>>::empty(),
    {
        let r = Database { entries: Vec::new(), channels: Vec::new() };
        assert(r.data() =~= Map::<Seq<u8>, Stored>::empty());
        assert(r.subscribers() =~= Map::<Seq<u8>, Seq<tokio::sync::mpsc::Sender<Vec<u8>>>>::empty());
        r
    }

    /// Inserts or overwrites the entry of `key`.
    pub fn put(&mut self, key: Vec<u8>, value: DbValue)
        requires
            old(self).wf(),
        ensures
            final(self).wf(),
            final(self).data() == old(self).data().insert(key@, value@),
            final(self).subscribers() == old(self).subscribers(),
    {
        let ghost k = key@;
        let ghost v = value@;
        match find_key(&self.entries, &key) {
            Some(i) => {
                proof {
                    lemma_key_map_set(self.entries@, i as int, key, value);
                }
                self.entries.set(i, (key, value));
            },
            None => {
                proof {
                    lemma_key_map_push(self.entries@, key, value);
                }
                self.entries.push((key, value));
            },
        }
        assert(self.data() =~= old(self).data().insert(k, v));
    }

    /// The entry of `key`, expired or not, without touching it.
    pub fn lookup(&self, key: &Vec<u8>) -> (r: Option<&DbValue>)
        requires
            self.wf(),
        ensures
            r is Some <==> self.data().contains_key(key@),
            r is Some ==> r->0@ == self.data()[key@],
    {
        match find_key(&self.entries, key) {
            Some(i) => {
                proof {
                    lemma_index_of(self.entries@, i as int);
                }
                Some(&self.entries[i].1)
            },
            None => None,
        }
    }

    /// Removes the entry of `key`; gives how many entries were removed.
    pub fn delete(&mut self, key: &Vec<u8>) -> (r: usize)
        requires
            old(self).wf(),
        ensures
            final(self).wf(),
            r == if old(self).data().contains_key(key@) {
                1usize
            } else {
                0usize
            },
            final(self).data() == old(self).data().remove(key@),
            final(self).subscribers() == old(self).subscribers(),
    {
        match find_key(&self.entries, key) {
            Some(i) => {
                proof {
                    lemma_key_map_remove(self.entries@, i as int);
                    lemma_index_of(self.entries@, i as int);
                }
                self.entries.remove(i);
                assert(self.data() =~= old(self).data().remove(key@));
                1
            },
            None => {
                assert(self.data() =~= old(self).data().remove(key@));
                0
            },
        }
    }

    /// The payload of `key` when it is present and not expired at `now`. An
    /// expired entry is removed on the way.
    pub fn get(&mut self, key: &Vec<u8>, now: u64) -> (r: Option<DataType>)
        requires
            old(self).wf(),
        ensures
            final(self).wf(),
            final(self).subscribers() == old(self).subscribers(),
            !old(self).data().contains_key(key@) ==> r is None && final(self).data() == old(self).data(),
            old(self).data().contains_key(key@) && expired(old(self).data()[key@], now) ==> r is None
                && final(self).data() == old(self).data().remove(key@),
            old(self).data().contains_key(key@) && !expired(old(self).data()[key@], now) ==> r is Some
                && r->0@ == old(self).data()[key@].payload && final(self).data() == old(self).data(),
    {
        match find_key(&self.entries, key) {
            Some(i) => {
                proof {
                    lemma_index_of(self.entries@, i as int);
                }
                if self.entries[i].1.is_expired(now) {
                    proof {
                        lemma_key_map_remove(self.entries@, i as int);
                    }
                    self.entries.remove(i);
                    assert(self.data() =~= old(self).data().remove(key@));
                    None
                } else {
                    Some(self.entries[i].1.data.duplicate())
                }
            },
            None => None,
        }
    }

    /// Removes each of `keys` whose entry is expired at `now`.
    pub fn expire_keys(&mut self, keys: &Vec<Vec<u8>>, now: u64)
        requires
            old(self).wf(),
        ensures
            final(self).wf(),
            final(self).data() == old(self).data().remove_keys(
                expired_among(old(self).data(), keys@.map_values(|k: Vec<u8>| k@), now),
            ),
            final(self).subscribers() == old(self).subscribers(),
    {
        let ghost m0 = self.data();
        let ghost ks = keys@.map_values(|k: Vec<u8>| k@);
        let mut j: usize = 0;
        assert(m0 =~= m0.remove_keys(expired_among(m0, ks.take(0), now)));
        while j < keys.len()
            invariant
                j <= keys.len(),
                ks == keys@.map_values(|k: Vec<u8>| k@),
                self.wf(),
                self.subscribers() == old(self).subscribers(),
                m0 == old(self).data(),
                self.data() == m0.remove_keys(expired_among(m0, ks.take(j as int), now)),
            decreases keys.len() - j,
        {
            let ghost before = self.data();
            let k = &keys[j];
            let ghost set_j = expired_among(m0, ks.take(j as int), now);
            let ghost set_n = expired_among(m0, ks.take(j + 1), now);
            assert(ks[j as int] == k@);
            assert forall|x: Seq<u8>| ks.take(j + 1).contains(x) <==> (ks.take(j as int).contains(x) || x == k@) by {
                let t1 = ks.take(j + 1);
                let t0 = ks.take(j as int);
                if t1.contains(x) {
                    let q = choose|q: int| 0 <= q < t1.len() && t1[q] == x;
                    if q < j {
                        assert(t0[q] == x);
                    }
                }
                if t0.contains(x) {
                    let q = choose|q: int| 0 <= q < t0.len() && t0[q] == x;
                    assert(t1[q] == x);
                }
                if x == k@ {
                    assert(t1[j as int] == x);
                }
            }
            assert(before.contains_key(k@) ==> before[k@] == m0[k@] && !set_j.contains(k@));
            match find_key(&self.entries, k) {
                Some(i) => {
                    proof {
                        lemma_index_of(self.entries@, i as int);
                    }
                    if self.entries[i].1.is_expired(now) {
                        proof {
                            lemma_key_map_remove(self.entries@, i as int);
                        }
                        self.entries.remove(i);
                        assert(self.data() =~= before.remove(k@));
                        assert(set_n =~= set_j.insert(k@));
                        assert(self.data() =~= m0.remove_keys(set_n));
                    } else {
                        assert(set_n =~= set_j);
                    }
                },
                None => {
                    assert(set_n =~= set_j);
                },
            }
            assert(self.data() =~= m0.remove_keys(set_n));
            j = j + 1;
        }
        assert(ks.take(keys.len() as int) =~= ks);
    }

    /// Looks at `min(n, number of keys)` distinct keys chosen at random and
    /// removes those expired at `now`. With at most `n` keys, every key is examined.
    pub fn sample_expire(&mut self, n: usize, now: u64)
        requires
            old(self).wf(),
        ensures
            final(self).wf(),
            exists|keys: Seq<Seq<u8>>|
                keys.len() == (if n < old(self).data().dom().len() {
                    n as nat
                } else {
                    old(self).data().dom().len()
                }) && keys.no_duplicates() && (forall|i: int|
                    0 <= i < keys.len() ==> old(self).data().contains_key(#[trigger] keys[i]))
                    && final(self).data() == old(self).data().remove_keys(
                    #[trigger] expired_among(old(self).data(), keys, now),
                ),
            final(self).subscribers() == old(self).subscribers(),
    {
        proof {
            lemma_key_map_len(self.entries@);
            assert(self.data().dom() =~= key_map(self.entries@).dom());
        }
        let ghost e0 = self.entries@;
        let len = self.entries.len();
        let amount = if n < len {
            n
        } else {
            len
        };
        let picks = random_indices(len, amount);
        let mut keys: Vec<Vec<u8>> = Vec::new();
        let mut i: usize = 0;
        while i < picks.len()
            invariant
                i <= picks.len() == amount <= len == self.entries.len(),
                e0 == self.entries@,
                keys.len() == i,
                forall|j: int| 0 <= j < picks.len() ==> #[trigger] picks[j] < len,
                forall|j: int| 0 <= j < i ==> #[trigger] keys@[j]@ == e0[picks[j] as int].0@,
            decreases picks.len() - i,
        {
            let key = &self.entries[picks[i]].0;
            keys.push(copy_range(key.as_slice(), 0, key.len()));
            i = i + 1;
        }
        let ghost ks = keys@.map_values(|k: Vec<u8>| k@);
        proof {
            assert forall|a: int| 0 <= a < ks.len() implies old(self).data().contains_key(#[trigger] ks[a]) by {
                lemma_index_of(e0, picks[a] as int);
            }
            assert forall|a: int, b: int| 0 <= a < ks.len() && 0 <= b < ks.len() && a != b implies ks[a] != ks[b] by {
                assert(picks[a] != picks[b]);
            }
        }
        self.expire_keys(&keys, now);
        assert(ks.len() == amount);
        assert(ks.no_duplicates());
        assert(forall|a: int| 0 <= a < ks.len() ==> old(self).data().contains_key(#[trigger] ks[a]));
        assert(final(self).data() == old(self).data().remove_keys(expired_among(old(self).data(), ks, now)));
    }

    /// Adds `tx` to the subscribers of `channel`, creating the list when absent.
    pub fn subscribe(&mut self, channel: Vec<u8>, tx: tokio::sync::mpsc::Sender<Vec<u8>>)
        requires
            old(self).wf(),
        ensures
            final(self).wf(),
            final(self).data() == old(self).data(),
            final(self).subscribers() == old(self).subscribers().insert(
                channel@,
                subscribers_of(old(self).subscribers(), channel@).push(tx),
            ),
    {
        let ghost c = channel@;
        let ghost t = tx;
        match find_key(&self.channels, &channel) {
            Some(i) => {
                proof {
                    lemma_index_of(self.channels@, i as int);
                }
                let ghost before = self.channels@;
                let (name, mut list) = self.channels.remove(i);
                list.push(tx);
                let ghost entry = (name, list);
                self.channels.insert(i, (name, list));
                proof {
                    assert(self.channels@ =~= before.update(i as int, entry));
                    lemma_key_map_set(before, i as int, entry.0, entry.1);
                }
                assert(self.subscribers() =~= old(self).subscribers().insert(
                    c,
                    subscribers_of(old(self).subscribers(), c).push(t),
                ));
            },
            None => {
                let mut list: Vec<tokio::sync::mpsc::Sender<Vec<u8>>> = Vec::new();
                list.push(tx);
                let ghost entry = (channel, list);
                proof {
                    lemma_key_map_push(self.channels@, entry.0, entry.1);
                }
                self.channels.push((channel, list));
                assert(list@ =~= Seq::<tokio::sync::mpsc::Sender<Vec<u8>>>::empty().push(t));
                assert(self.subscribers() =~= old(self).subscribers().insert(
                    c,
                    subscribers_of(old(self).subscribers(), c).push(t),
                ));
            },
        }
    }

    /// Offers `message` to every subscriber of `channel` without waiting and
    /// drops each subscriber whose offer failed (queue full or receiver gone).
    /// Gives the number of subscribers there were before the drop.
    pub fn publish(&mut self, channel: &Vec<u8>, message: &Vec<u8>) -> (r: usize)
        requires
            old(self).wf(),
        ensures
            final(self).wf(),
            final(self).data() == old(self).data(),
            r == subscribers_of(old(self).subscribers(), channel@).len(),
            !old(self).subscribers().contains_key(channel@) ==> final(self).subscribers() == old(
                self,
            ).subscribers(),
            old(self).subscribers().contains_key(channel@) ==> exists|d: Seq<bool>|
                d.len() == r && final(self).subscribers() == old(self).subscribers().insert(
                    channel@,
                    #[trigger] kept(old(self).subscribers()[channel@], d),
                ),
    {
        match find_key(&self.channels, channel) {
            Some(i) => {
                proof {
                    lemma_index_of(self.channels@, i as int);
                }
                let ghost before = self.channels@;
                let (name, mut list) = self.channels.remove(i);
                let ghost list0 = list@;
                let count = list.len();
                let mut delivered: Vec<bool> = Vec::new();
                let mut j: usize = 0;
                while j < list.len()
                    invariant
                        j <= list.len(),
                        delivered.len() == j,
                    decreases list.len() - j,
                {
                    let ok = offer(&list[j], copy_range(message.as_slice(), 0, message.len()));
                    delivered.push(ok);
                    j = j + 1;
                }
                retain_delivered(&mut list, &delivered);
                let ghost entry = (name, list);
                self.channels.insert(i, (name, list));
                proof {
                    assert(self.channels@ =~= before.update(i as int, entry));
                    lemma_key_map_set(before, i as int, entry.0, entry.1);
                    assert(self.subscribers() =~= old(self).subscribers().insert(
                        channel@,
                        kept(list0, delivered@),
                    ));
                    assert(old(self).subscribers()[channel@] == list0);
                    assert(kept(old(self).subscribers()[channel@], delivered@) == kept(list0, delivered@));
                }
                count
            },
            None => 0,
        }
    }
}

/// An empty keyspace and channel registry.
pub fn new_db() -> (r: Database)
    ensures
        r.wf(),
        r.data() == Map::<Seq<u8>, Stored>::empty(),
        r.subscribers() == Map::<Seq<u8>, Seq<tokio::sync::mpsc::Sender<Vec<u8>>>>::empty(),
{
    Database::new()
}

/// The keyspace of a database is finite.
pub proof fn lemma_data_finite(db: &Database)
    requires
        db.wf(),
    ensures
        db.data().dom().finite(),
{
    lemma_key_map_len(db.entries@);
    assert(db.data().dom() =~= key_map(db.entries@).dom());
}

/// Active expiry on a small keyspace: a sample of distinct keys as large as
/// the keyspace takes in every key, so what `sample_expire` leaves holds no
/// entry expired at `now`.
pub proof fn lemma_full_sample_clears_expired(m: Map<Seq<u8>, Stored>, keys: Seq<Seq<u8>>, now: u64)
    requires
        m.dom().finite(),
        keys.len() == m.dom().len(),
        keys.no_duplicates(),
        forall|i: int| 0 <= i < keys.len() ==> m.contains_key(#[trigger] keys[i]),
    ensures
        forall|k: Seq<u8>| #[trigger] m.remove_keys(expired_among(m, keys, now)).contains_key(k) ==> !expired(
            m[k],
            now,
        ),
{
    keys.unique_seq_to_set();
    assert(keys.to_set().subset_of(m.dom()));
    vstd::set_lib::lemma_subset_equality(keys.to_set(), m.dom());
    assert forall|k: Seq<u8>| #[trigger] m.remove_keys(expired_among(m, keys, now)).contains_key(k) implies !expired(
        m[k],
        now,
    ) by {
        assert(m.dom().contains(k));
        assert(keys.to_set().contains(k));
        if expired(m[k], now) {
            assert(expired_among(m, keys, now).contains(k));
        }
    }
}

// ---------------------------------------------------------------------------
// Laws of fan-out
// ---------------------------------------------------------------------------

/// Fan-out: when every offer succeeds, `publish` keeps every subscriber.
pub proof fn lemma_fan_out_keeps_all<T>(subs: Seq<T>, delivered: Seq<bool>)
    requires
        delivered.len() == subs.len(),
        forall|i: int| 0 <= i < delivered.len() ==> #[trigger] delivered[i],
    ensures
        kept(subs, delivered) == subs,
    decreases subs.len(),
{
    if subs.len() > 0 {
        lemma_fan_out_keeps_all(subs.drop_last(), delivered.drop_last());
        assert(kept(subs, delivered) =~= subs.drop_last().push(subs.last()));
    }
}

/// Eviction: what remains after `publish` is exactly the subscribers whose offer
/// succeeded, so a subscriber whose queue refused the message is gone, and when
/// every offer failed no subscriber remains.
pub proof fn lemma_failed_offers_evicted<T>(subs: Seq<T>, delivered: Seq<bool>)
    requires
        delivered.len() == subs.len(),
    ensures
        kept(subs, delivered).len() == count_true(delivered),
        count_true(delivered) <= subs.len(),
        (exists|i: int| 0 <= i < delivered.len() && !#[trigger] delivered[i]) ==> kept(subs, delivered).len()
            < subs.len(),
        (forall|i: int| 0 <= i < delivered.len() ==> !#[trigger] delivered[i]) ==> kept(subs, delivered).len()
            == 0,
    decreases subs.len(),
{
    if subs.len() > 0 {
        let d0 = delivered.drop_last();
        lemma_failed_offers_evicted(subs.drop_last(), d0);
        if exists|i: int| 0 <= i < delivered.len() && !#[trigger] delivered[i] {
            let i = choose|i: int| 0 <= i < delivered.len() && !#[trigger] delivered[i];
            if i < delivered.len() - 1 {
                assert(!d0[i]);
            }
        }
        if forall|i: int| 0 <= i < delivered.len() ==> !#[trigger] delivered[i] {
            assert forall|i: int| 0 <= i < d0.len() implies !#[trigger] d0[i] by {
                assert(!delivered[i]);
            }
            assert(!delivered[delivered.len() - 1]);
        }
    }
}

} // verus!
