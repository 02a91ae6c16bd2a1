//! The key-value store: a table of entries with optional expiry, and the
//! store that connections share, which guards one table with a lock.
use crate::buf::{bytes_eq, bytes_view};
use bytes::Bytes;
use std::time::Instant;
use vstd::prelude::*;
use vstd::rwlock::{RwLock, RwLockPredicate};

verus! {

#[verifier::external_type_specification]
#[verifier::external_body]
pub struct ExInstant(std::time::Instant);

/// Relies on `Instant::now`: a reading of the monotonic clock.
#[verifier::external_body]
fn clock_start() -> Instant {
    Instant::now()
}

/// Relies on `Instant::elapsed`: the whole milliseconds that the monotonic
/// clock has advanced since `origin`.
#[verifier::external_body]
fn millis_since(origin: &Instant) -> u64 {
    origin.elapsed().as_millis() as u64
}

/// One key, its value, and the instant (in milliseconds) at which it expires.
pub struct Entry {
    key: Bytes,
    value: Bytes,
    expires_at: Option<u64>,
}

/// What a table stores for a key: its value and when it expires.
pub type Stored = (Seq<u8>, Option<u64>);

/// The instant at which an entry set at `now` with `ttl` expires; an instant
/// past the clock's range is the clock's last one.
pub open spec fn expiry(now: u64, ttl: Option<u64>) -> Option<u64> {
    match ttl {
        Some(t) => Some(
            if now + t > u64::MAX {
                u64::MAX
            } else {
                (now + t) as u64
            },
        ),
        None => None,
    }
}

/// Whether an entry with this expiry has expired at `now`.
pub open spec fn expired(expires_at: Option<u64>, now: u64) -> bool {
    match expires_at {
        Some(t) => now >= t,
        None => false,
    }
}

/// What `get` returns at `now` from a table whose contents are `m`, and the
/// contents afterwards: an entry found expired is removed.
pub open spec fn get_spec(m: Map<Seq<u8>, Stored>, k: Seq<u8>, now: u64) -> (
    Option<Seq<u8>>,
    Map<Seq<u8>, Stored>,
) {
    if !m.contains_key(k) {
        (None, m)
    } else if expired(m[k].1, now) {
        (None, m.remove(k))
    } else {
        (Some(m[k].0), m)
    }
}

/// The contents of a table after `set` at `now`.
pub open spec fn set_spec(
    m: Map<Seq<u8>, Stored>,
    k: Seq<u8>,
    v: Seq<u8>,
    ttl: Option<u64>,
    now: u64,
) -> Map<Seq<u8>, Stored> {
    m.insert(k, (v, expiry(now, ttl)))
}

/// Expiry: a key set with a time to live is there when read before that
/// time has passed; read once it has passed, it is absent and is removed,
/// and a later read finds it absent again.
pub proof fn expiry_law(
    m: Map<Seq<u8>, Stored>,
    k: Seq<u8>,
    v: Seq<u8>,
    ttl: u64,
    set_at: u64,
    early: u64,
    late: u64,
    later: u64,
)
    requires
        set_at <= early < set_at + ttl,
        set_at + ttl <= late <= later,
    ensures
        get_spec(set_spec(m, k, v, Some(ttl), set_at), k, early) == (
            Some(v),
            set_spec(m, k, v, Some(ttl), set_at),
        ),
        get_spec(set_spec(m, k, v, Some(ttl), set_at), k, late).0 is None,
        get_spec(get_spec(set_spec(m, k, v, Some(ttl), set_at), k, late).1, k, later).0 is None,
{
}

/// Overwrite: setting a key again without a time to live replaces its
/// value and clears any expiry it had, so a read at any later time returns
/// the new value.
pub proof fn overwrite_law(
    m: Map<Seq<u8>, Stored>,
    k: Seq<u8>,
    v1: Seq<u8>,
    ttl: Option<u64>,
    v2: Seq<u8>,
    t1: u64,
    t2: u64,
    t3: u64,
)
    ensures
        set_spec(set_spec(m, k, v1, ttl, t1), k, v2, None, t2)[k] == (v2, None::<u64>),
        get_spec(set_spec(set_spec(m, k, v1, ttl, t1), k, v2, None, t2), k, t3) == (
            Some(v2),
            set_spec(set_spec(m, k, v1, ttl, t1), k, v2, None, t2),
        ),
{
}

/// A key-value table with lazy expiry. Time is handed in by the caller, in
/// milliseconds of a monotonic clock.
pub struct Table {
    items: Vec<Entry>,
}

spec fn key_at(items: Seq<Entry>, i: int) -> Seq<u8> {
    bytes_view(items[i].key)
}

spec fn has_key(items: Seq<Entry>, k: Seq<u8>) -> bool {
    exists|i: int| 0 <= i < items.len() && key_at(items, i) == k
}

spec fn index_of(items: Seq<Entry>, k: Seq<u8>) -> int {
    choose|i: int| 0 <= i < items.len() && key_at(items, i) == k
}

spec fn contents(items: Seq<Entry>) -> Map<Seq<u8>, Stored> {
    Map::new(
        |k: Seq<u8>| has_key(items, k),
        |k: Seq<u8>|
            {
                let e = items[index_of(items, k)];
                (bytes_view(e.value), e.expires_at)
            },
    )
}

spec fn unique_keys(items: Seq<Entry>) -> bool {
    forall|i: int, j: int|
        0 <= i < items.len() && 0 <= j < items.len() && i != j ==> key_at(items, i) != key_at(
            items,
            j,
        )
}

/// In a table whose keys are unique, the entry at `i` is what its key maps to.
proof fn lemma_entry_at(items: Seq<Entry>, i: int)
    requires
        unique_keys(items),
        0 <= i < items.len(),
    ensures
        contents(items).contains_key(key_at(items, i)),
        contents(items)[key_at(items, i)] == (bytes_view(items[i].value), items[i].expires_at),
{
    let k = key_at(items, i);
    assert(has_key(items, k));
    let j = index_of(items, k);
    assert(j == i);
}

impl View for Table {
    type V = Map<Seq<u8>, Stored>;

    closed spec fn view(&self) -> Map<Seq<u8>, Stored> {
        contents(self.items@)
    }
}

impl Table {
    /// No key occurs twice.
    pub closed spec fn wf(&self) -> bool {
        unique_keys(self.items@)
    }

    /// An empty table.
    pub fn new() -> (r: Table)
        ensures
            r.wf(),
            r@ == Map::<Seq<u8>, Stored>::empty(),
    {
        let r = Table { items: Vec::new() };
        proof {
            assert(r@ =~= Map::<Seq<u8>, Stored>::empty());
        }
        r
    }

    /// The index of the entry for `key`.
    fn find(&self, key: &Bytes) -> (r: Option<usize>)
        ensures
            match r {
                Some(i) => i < self.items@.len() && key_at(self.items@, i as int) == bytes_view(
                    *key,
                ),
                None => !has_key(self.items@, bytes_view(*key)),
            },
    {
        let mut i: usize = 0;
        while i < self.items.len()
            invariant
                i <= self.items@.len(),
                forall|j: int| 0 <= j < i ==> key_at(self.items@, j) != bytes_view(*key),
            decreases self.items@.len() - i,
        {
            if bytes_eq(&self.items[i].key, key) {
                return Some(i);
            }
            i = i + 1;
        }
        None
    }

    /// Stores `value` under `key`, replacing what was there. With a `ttl`
    /// (in milliseconds) the entry expires that long after `now`; without
    /// one it never expires.
    pub fn set(&mut self, key: Bytes, value: Bytes, ttl: Option<u64>, now: u64)
        requires
            old(self).wf(),
        ensures
            final(self).wf(),
            final(self)@ == set_spec(old(self)@, bytes_view(key), bytes_view(value), ttl, now),
    {
        let ghost old_items = self.items@;
        let ghost k = bytes_view(key);
        let ghost v = bytes_view(value);
        let expires_at = match ttl {
            Some(t) => Some(now.saturating_add(t)),
            None => None,
        };
        let found = self.find(&key);
        let entry = Entry { key, value, expires_at };
        match found {
            Some(i) => {
                self.items.set(i, entry);
                proof {
                    let items = self.items@;
                    assert(unique_keys(items)) by {
                        assert forall|a: int, b: int|
                            0 <= a < items.len() && 0 <= b < items.len() && a != b implies key_at(
                            items,
                            a,
                        ) != key_at(items, b) by {
                            assert(key_at(old_items, a) != key_at(old_items, b));
                            assert(a != i ==> key_at(old_items, a) != key_at(old_items, i as int));
                            assert(b != i ==> key_at(old_items, b) != key_at(old_items, i as int));
                        }
                    }
                    lemma_entry_at(items, i as int);
                    assert forall|k2: Seq<u8>| k2 != k implies (#[trigger] has_key(items, k2)
                        == has_key(old_items, k2)) by {
                        if has_key(old_items, k2) {
                            let j = index_of(old_items, k2);
                            assert(j != i);
                            assert(key_at(items, j) == k2);
                        }
                        if has_key(items, k2) {
                            let j = index_of(items, k2);
                            assert(key_at(old_items, j) == k2);
                        }
                    }
                    assert forall|k2: Seq<u8>| k2 != k && has_key(items, k2) implies contents(
                        items,
                    )[k2] == contents(old_items)[k2] by {
                        let j = index_of(items, k2);
                        assert(j != i);
                        lemma_entry_at(items, j);
                        lemma_entry_at(old_items, j);
                    }
                    assert(contents(items) =~= set_spec(contents(old_items), k, v, ttl, now));
                }
            },
            None => {
                self.items.push(entry);
                proof {
                    let items = self.items@;
                    let n = old_items.len() as int;
                    assert(unique_keys(items)) by {
                        assert forall|a: int, b: int|
                            0 <= a < items.len() && 0 <= b < items.len() && a != b implies key_at(
                            items,
                            a,
                        ) != key_at(items, b) by {
                            if a < n && b < n {
                                assert(key_at(old_items, a) != key_at(old_items, b));
                            } else if a < n {
                                assert(key_at(items, a) == key_at(old_items, a));
                            } else {
                                assert(key_at(items, b) == key_at(old_items, b));
                            }
                        }
                    }
                    lemma_entry_at(items, n);
                    assert forall|k2: Seq<u8>| k2 != k implies (#[trigger] has_key(items, k2)
                        == has_key(old_items, k2)) by {
                        if has_key(old_items, k2) {
                            let j = index_of(old_items, k2);
                            assert(key_at(items, j) == k2);
                        }
                        if has_key(items, k2) {
                            let j = index_of(items, k2);
                            assert(j != n);
                            assert(key_at(old_items, j) == k2);
                        }
                    }
                    assert forall|k2: Seq<u8>| k2 != k && has_key(items, k2) implies contents(
                        items,
                    )[k2] == contents(old_items)[k2] by {
                        let j = index_of(items, k2);
                        assert(j != n);
                        lemma_entry_at(items, j);
                        lemma_entry_at(old_items, j);
                    }
                    assert(contents(items) =~= set_spec(contents(old_items), k, v, ttl, now));
                }
            },
        }
    }

    /// The value stored under `key` at `now`. An entry that has expired is
    /// removed and reported absent.
    pub fn get(&mut self, key: &Bytes, now: u64) -> (r: Option<Bytes>)
        requires
            old(self).wf(),
        ensures
            final(self).wf(),
            ({
                let (want, after) = get_spec(old(self)@, bytes_view(*key), now);
                &&& final(self)@ == after
                &&& match r {
                    Some(b) => want == Some(bytes_view(b)),
                    None => want is None,
                }
            }),
    {
        let ghost old_items = self.items@;
        let ghost k = bytes_view(*key);
        match self.find(key) {
            None => {
                None
            },
            Some(i) => {
                proof {
                    lemma_entry_at(old_items, i as int);
                }
                let is_expired = match self.items[i].expires_at {
                    Some(t) => now >= t,
                    None => false,
                };
                if is_expired {
                    let _gone = self.items.remove(i);
                    proof {
                        let items = self.items@;
                        assert forall|a: int| 0 <= a < items.len() implies #[trigger] key_at(
                            items,
                            a,
                        ) == key_at(old_items, if a < i { a } else { a + 1 }) by {}
                        assert(unique_keys(items)) by {
                            assert forall|a: int, b: int|
                                0 <= a < items.len() && 0 <= b < items.len() && a != b implies key_at(
                                items,
                                a,
                            ) != key_at(items, b) by {
                                let a2 = if a < i { a } else { a + 1 };
                                let b2 = if b < i { b } else { b + 1 };
                                assert(key_at(old_items, a2) != key_at(old_items, b2));
                            }
                        }
                        assert forall|k2: Seq<u8>| (#[trigger] has_key(items, k2)) == (has_key(
                            old_items,
                            k2,
                        ) && k2 != k) by {
                            if has_key(old_items, k2) && k2 != k {
                                let j = index_of(old_items, k2);
                                assert(j != i);
                                let j2 = if j < i { j } else { j - 1 };
                                assert(key_at(items, j2) == k2);
                            }
                            if has_key(items, k2) {
                                let j = index_of(items, k2);
                                let j2 = if j < i { j } else { j + 1 };
                                assert(key_at(old_items, j2) == k2);
                                assert(j2 != i);
                            }
                        }
                        assert forall|k2: Seq<u8>| has_key(items, k2) implies contents(items)[k2]
                            == contents(old_items)[k2] by {
                            let j = index_of(items, k2);
                            let j2 = if j < i { j } else { j + 1 };
                            lemma_entry_at(items, j);
                            lemma_entry_at(old_items, j2);
                        }
                        assert(contents(items) =~= contents(old_items).remove(k));
                    }
                    None
                } else {
                    Some(self.items[i].value.clone())
                }
            },
        }
    }
}

/// The table is well formed whenever it is in the lock.
pub struct TableInv;

impl RwLockPredicate<Table> for TableInv {
    open spec fn inv(self, t: Table) -> bool {
        t.wf()
    }
}

/// The store that all connections share: one table behind one lock, and the
/// clock that expiry is measured by.
pub struct Store {
    table: RwLock<Table, TableInv>,
    origin: Instant,
}

impl Store {
    #[verifier::type_invariant]
    spec fn inv(&self) -> bool {
        self.table.pred() == TableInv
    }

    /// An empty store, whose clock starts now.
    pub fn new() -> Self {
        Store { table: RwLock::new(Table::new(), Ghost(TableInv)), origin: clock_start() }
    }

    /// Stores `value` under `key`; with `ttl_millis` the entry expires that
    /// many milliseconds from now, without it the entry never expires. Other
    /// connections may change the store at any time, so nothing is promised
    /// of what a later `get` sees.
    pub fn set(&self, key: Bytes, value: Bytes, ttl_millis: Option<u64>) {
        proof {
            use_type_invariant(self);
        }
        let (mut table, handle) = self.table.acquire_write();
        let now = millis_since(&self.origin);
        table.set(key, value, ttl_millis, now);
        handle.release_write(table);
    }

    /// The value under `key` unless it is absent or has expired; an expired
    /// entry is removed. Lookup and removal happen under one lock.
    pub fn get(&self, key: &Bytes) -> Option<Bytes> {
        proof {
            use_type_invariant(self);
        }
        let (mut table, handle) = self.table.acquire_write();
        let now = millis_since(&self.origin);
        let r = table.get(key, now);
        handle.release_write(table);
        r
    }
}

} // verus!
