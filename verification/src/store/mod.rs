//! In-memory key-value storage with optional expiry times.
//!
//! Keys are kept sorted, so listing needs no separate sort. Expired entries are
//! invisible to every read; writes also drop them physically. Every operation
//! comes in two forms: one that reads the clock, and one (`*_at`) that takes the
//! current time, in milliseconds of the store's clock, as an argument.

pub mod order;
pub mod slots;

use vstd::prelude::*;

use self::order::{
    compare_keys, key_less, lemma_key_less_irreflexive, lemma_key_less_transitive, KeyOrder,
};
use self::slots::{
    has_key, lemma_slots_map_at, lemma_slots_map_finite, lemma_slots_map_insert,
    lemma_slots_map_remove, lemma_slots_map_update, lemma_unique_key, slots_map, sorted_slots, Slot,
};
use crate::clock::Clock;
use crate::text::{chars_of, push_str};

verus! {

/// Errors of store operations.
#[derive(Debug, Clone, PartialEq, Eq)]
pub enum StoreError {
    /// The key is empty or holds a blank, a tab or a line break; the text says which.
    InvalidKey(String),
    /// The key is not there.
    KeyNotFound,
}

/// What the error says when shown (`非法键: …` / `键不存在`).
pub open spec fn store_error_text(e: StoreError) -> Seq<char> {
    match e {
        StoreError::InvalidKey(m) => "非法键: "@ + m@,
        StoreError::KeyNotFound => "键不存在"@,
    }
}

impl StoreError {
    /// The text of the error, as it is shown to users.
    pub fn message(&self) -> (r: String)
        ensures
            r@ == store_error_text(*self),
    {
        match self {
            StoreError::InvalidKey(m) => {
                let mut s = String::from_str("非法键: ");
                push_str(&mut s, m.as_str());
                s
            },
            StoreError::KeyNotFound => String::from_str("键不存在"),
        }
    }
}

/// What is wrong with a key, if anything.
pub open spec fn key_problem(k: Seq<char>) -> Option<Seq<char>> {
    if k.len() == 0 {
        Some("键不能为空"@)
    } else if k.contains(' ') || k.contains('\t') {
        Some("键不能包含空白字符"@)
    } else if k.contains('\n') || k.contains('\r') {
        Some("键不能包含换行"@)
    } else {
        None
    }
}

/// A stored value is visible at `now` unless its expiry time has been reached.
pub open spec fn is_live(stored: (Seq<char>, Option<u64>), now: u64) -> bool {
    match stored.1 {
        None => true,
        Some(t) => now < t,
    }
}

/// The entries of `m` that are visible at `now`.
pub open spec fn live_part(m: Map<Seq<char>, (Seq<char>, Option<u64>)>, now: u64) -> Map<
    Seq<char>,
    (Seq<char>, Option<u64>),
> {
    Map::new(|k: Seq<char>| m.contains_key(k) && is_live(m[k], now), |k: Seq<char>| m[k])
}

/// The expiry time of a value written at `now` with a TTL in seconds; times past
/// the clock's range are held at its largest value.
pub open spec fn expiry(now: u64, ttl: Option<u64>) -> Option<u64> {
    match ttl {
        None => None,
        Some(secs) => Some(
            if now + secs * 1000 > u64::MAX {
                u64::MAX
            } else {
                (now + secs * 1000) as u64
            },
        ),
    }
}

/// The value of `k` visible at `now`.
pub open spec fn lookup(m: Map<Seq<char>, (Seq<char>, Option<u64>)>, k: Seq<char>, now: u64) -> Option<
    Seq<char>,
> {
    if m.contains_key(k) && is_live(m[k], now) {
        Some(m[k].0)
    } else {
        None
    }
}

pub open spec fn opt_str_view(o: Option<&str>) -> Option<Seq<char>> {
    match o {
        Some(s) => Some(s@),
        None => None,
    }
}

/// Keys strictly increasing in the listing order.
pub open spec fn strictly_sorted(ks: Seq<Seq<char>>) -> bool {
    forall|i: int, j: int| 0 <= i < j < ks.len() ==> key_less(#[trigger] ks[i], #[trigger] ks[j])
}

pub open spec fn string_views(v: Seq<String>) -> Seq<Seq<char>> {
    v.map_values(|s: String| s@)
}

struct Entry {
    key: String,
    key_chars: Vec<char>,
    value: String,
    expire_at: Option<u64>,
}

/// Some slot before position `i` has key `k`.
spec fn seen_before(s: Seq<Slot>, i: int, k: Seq<char>) -> bool {
    exists|j: int| 0 <= j < i && #[trigger] s[j].key == k
}

spec fn slot_of(e: Entry) -> Slot {
    Slot { key: e.key@, value: e.value@, expire_at: e.expire_at }
}

/// The key-value store.
pub struct KVStore {
    entries: Vec<Entry>,
    clock: Clock,
    /// The latest time the store has worked at; clock readings below it are
    /// raised to it, so the store's time never runs backwards.
    latest: u64,
}

/// The later of two times.
pub open spec fn later_of(a: u64, b: u64) -> u64 {
    if a < b {
        b
    } else {
        a
    }
}

impl View for KVStore {
    type V = Map<Seq<char>, (Seq<char>, Option<u64>)>;

    /// Every stored key, live or expired, with its value and expiry time.
    closed spec fn view(&self) -> Map<Seq<char>, (Seq<char>, Option<u64>)> {
        slots_map(self.slots())
    }
}

impl KVStore {
    /// The latest time the store has worked at (milliseconds on its clock).
    pub closed spec fn time(&self) -> u64 {
        self.latest
    }

    closed spec fn slots(&self) -> Seq<Slot> {
        self.entries@.map_values(|e: Entry| slot_of(e))
    }

    /// The store's internal invariant: entries sorted strictly by key, and
    /// every stored key one that the store accepts.
    pub closed spec fn wf(&self) -> bool {
        &&& sorted_slots(self.slots())
        &&& forall|k: Seq<char>| #[trigger] self@.contains_key(k) ==> key_problem(k) is None
        &&& forall|i: int| 0 <= i < self.entries@.len() ==> #[trigger] self.entries@[i].key_chars@
            == self.entries@[i].key@
    }

    /// An empty store.
    pub fn new() -> (s: KVStore)
        ensures
            s.wf(),
            s@ == Map::<Seq<char>, (Seq<char>, Option<u64>)>::empty(),
            s.time() == 0,
    {
        let s = KVStore { entries: Vec::new(), clock: Clock::start(), latest: 0 };
        assert(s@ =~= Map::<Seq<char>, (Seq<char>, Option<u64>)>::empty());
        s
    }

    /// The current time on the store's clock, in milliseconds: the clock's
    /// reading, or the store's latest time if that is later.
    pub fn now(&self) -> (r: u64)
        ensures
            r >= self.time(),
    {
        let t = self.clock.now_ms();
        if t < self.latest {
            self.latest
        } else {
            t
        }
    }

    /// Moves the store's latest time up to `now` (never back).
    pub fn note_time(&mut self, now: u64)
        requires
            old(self).wf(),
        ensures
            final(self).wf(),
            final(self)@ == old(self)@,
            final(self).time() == later_of(old(self).time(), now),
    {
        let ghost before = self.slots();
        if self.latest < now {
            self.latest = now;
        }
        assert(self.entries@ == old(self).entries@);
        assert(self.slots() == before);
        assert(self@ == old(self)@);
    }

    /// Whether the store accepts `key`: non-empty, no blank or tab, no line
    /// break; the error says what is wrong.
    pub fn check_key(key: &str) -> (r: Result<(), StoreError>)
        ensures
            match key_problem(key@) {
                Some(msg) => r matches Err(StoreError::InvalidKey(m)) && m@ == msg,
                None => r is Ok,
            },
    {
        let kc = chars_of(key);
        Self::validate_key(&kc)
    }

    /// Checks a key: non-empty, no blank or tab, no line break.
    fn validate_key(key: &Vec<char>) -> (r: Result<(), StoreError>)
        ensures
            match key_problem(key@) {
                Some(msg) => r matches Err(StoreError::InvalidKey(m)) && m@ == msg,
                None => r is Ok,
            },
    {
        if key.len() == 0 {
            return Err(StoreError::InvalidKey(String::from_str("键不能为空")));
        }
        let mut blank = false;
        let mut newline = false;
        let mut i: usize = 0;
        while i < key.len()
            invariant
                i <= key.len(),
                blank == exists|j: int| 0 <= j < i && (key@[j] == ' ' || key@[j] == '\t'),
                newline == exists|j: int| 0 <= j < i && (key@[j] == '\n' || key@[j] == '\r'),
            decreases key.len() - i,
        {
            let c = key[i];
            if c == ' ' || c == '\t' {
                blank = true;
            }
            if c == '\n' || c == '\r' {
                newline = true;
            }
            i = i + 1;
        }
        proof {
            assert(key@.contains(' ') || key@.contains('\t') <==> blank);
            assert(key@.contains('\n') || key@.contains('\r') <==> newline);
        }
        if blank {
            return Err(StoreError::InvalidKey(String::from_str("键不能包含空白字符")));
        }
        if newline {
            return Err(StoreError::InvalidKey(String::from_str("键不能包含换行")));
        }
        Ok(())
    }

    /// Whether an expiry time has been reached at `now` (no expiry never is).
    fn is_expired(exp: Option<u64>, now: u64) -> (r: bool)
        ensures
            r == (exp matches Some(t) && t <= now),
    {
        match exp {
            Some(t) => t <= now,
            None => false,
        }
    }

    /// Where `k` is, or where it would go.
    fn find(&self, k: &Vec<char>) -> (r: (usize, bool))
        requires
            self.wf(),
        ensures
            r.0 <= self.slots().len(),
            forall|j: int| 0 <= j < r.0 ==> key_less(#[trigger] self.slots()[j].key, k@),
            r.1 ==> r.0 < self.slots().len() && self.slots()[r.0 as int].key == k@,
            !r.1 ==> forall|j: int|
                r.0 <= j < self.slots().len() ==> key_less(k@, #[trigger] self.slots()[j].key),
    {
        let mut i: usize = 0;
        while i < self.entries.len()
            invariant
                self.wf(),
                i <= self.entries.len(),
                forall|j: int| 0 <= j < i ==> key_less(#[trigger] self.slots()[j].key, k@),
            decreases self.entries.len() - i,
        {
            assert(self.slots()[i as int].key == self.entries@[i as int].key_chars@);
            match compare_keys(&self.entries[i].key_chars, k) {
                KeyOrder::Before => {
                    i = i + 1;
                },
                KeyOrder::Same => {
                    return (i, true);
                },
                KeyOrder::After => {
                    proof {
                        let s = self.slots();
                        assert forall|j: int| i <= j < s.len() implies key_less(
                            k@,
                            #[trigger] s[j].key,
                        ) by {
                            if j > i {
                                lemma_key_less_transitive(k@, s[i as int].key, s[j].key);
                            }
                        }
                    }
                    return (i, false);
                },
            }
        }
        (i, false)
    }

    /// Drops every entry whose expiry time has been reached at `now`.
    fn sweep_expired(&mut self, now: u64)
        requires
            old(self).wf(),
        ensures
            final(self).wf(),
            final(self)@ == live_part(old(self)@, now),
            final(self).time() == old(self).time(),
    {
        let ghost s0 = self.slots();
        let ghost t0 = self.latest;
        let ghost m0 = self@;
        let mut i = self.entries.len();
        while i > 0
            invariant
                self.wf(),
                self.latest == t0,
                sorted_slots(s0),
                m0 == slots_map(s0),
                i <= self.entries.len(),
                i <= s0.len(),
                forall|j: int| 0 <= j < i ==> #[trigger] self.slots()[j] == s0[j],
                self@ == Map::new(
                    |k: Seq<char>|
                        m0.contains_key(k) && (is_live(m0[k], now) || seen_before(s0, i as int, k)),
                    |k: Seq<char>| m0[k],
                ),
            decreases i,
        {
            let ghost before = self@;
            let ghost s = self.slots();
            let ghost key = s0[i - 1].key;
            proof {
                lemma_slots_map_at(s0, i - 1);
                assert(s[i - 1] == s0[i - 1]);
            }
            if Self::is_expired(self.entries[i - 1].expire_at, now) {
                let ghost p = (i - 1) as int;
                self.entries.remove(i - 1);
                proof {
                    assert(self.slots() == s.remove(p));
                    lemma_slots_map_remove(s, p);
                    assert forall|j: int| 0 <= j < i - 1 implies #[trigger] self.slots()[j]
                        == s0[j] by {
                        assert(self.slots()[j] == s[j]);
                    }
                    assert forall|k: Seq<char>| #[trigger] seen_before(s0, i as int, k) && k != key
                        implies seen_before(s0, i - 1, k) by {
                        let j = choose|j: int| 0 <= j < i && #[trigger] s0[j].key == k;
                        assert(j != i - 1);
                    }
                    assert forall|j: int| 0 <= j < i - 1 && #[trigger] s0[j].key == key implies false by {
                        lemma_unique_key(s0, j, i - 1);
                    }
                }
            } else {
                proof {
                    assert forall|k: Seq<char>| #[trigger] seen_before(s0, i as int, k) && k != key
                        implies seen_before(s0, i - 1, k) by {
                        let j = choose|j: int| 0 <= j < i && #[trigger] s0[j].key == k;
                        assert(j != i - 1);
                    }
                }
            }
            i = i - 1;
            assert(self@ =~= Map::new(
                |k: Seq<char>|
                    m0.contains_key(k) && (is_live(m0[k], now) || seen_before(s0, i as int, k)),
                |k: Seq<char>| m0[k],
            ));
        }
        assert(self@ =~= live_part(old(self)@, now));
    }
}

impl KVStore {
    fn expire_time(now: u64, ttl: Option<u64>) -> (r: Option<u64>)
        ensures
            r == expiry(now, ttl),
    {
        match ttl {
            None => None,
            Some(secs) => Some(
                match secs.checked_mul(1000) {
                    Some(ms) => now.saturating_add(ms),
                    None => u64::MAX,
                },
            ),
        }
    }

    /// Writes `key`, replacing any earlier value and expiry: with `ttl: Some(secs)`
    /// the key expires `secs` seconds after `now`, with `None` it never does.
    /// Entries already expired at `now` are dropped first.
    pub fn set_at(&mut self, key: &str, value: &str, ttl: Option<u64>, now: u64) -> (r: Result<
        (),
        StoreError,
    >)
        requires
            old(self).wf(),
        ensures
            final(self).wf(),
            final(self).time() == later_of(old(self).time(), now),
            match key_problem(key@) {
                Some(msg) => r matches Err(StoreError::InvalidKey(m)) && m@ == msg && final(self)@
                    == old(self)@,
                None => r is Ok && final(self)@ == live_part(old(self)@, now).insert(
                    key@,
                    (value@, expiry(now, ttl)),
                ),
            },
    {
        self.note_time(now);
        let kc = chars_of(key);
        Self::validate_key(&kc)?;
        self.sweep_expired(now);
        let expire_at = Self::expire_time(now, ttl);
        let (p, found) = self.find(&kc);
        let entry = Entry {
            key: String::from_str(key),
            key_chars: kc,
            value: String::from_str(value),
            expire_at,
        };
        let ghost s = self.slots();
        let ghost slot = slot_of(entry);
        if found {
            self.entries.set(p, entry);
            proof {
                assert(self.slots() == s.update(p as int, slot));
                lemma_slots_map_update(s, p as int, slot);
            }
        } else {
            self.entries.insert(p, entry);
            proof {
                assert(self.slots() == s.insert(p as int, slot));
                lemma_slots_map_insert(s, p as int, slot);
            }
        }
        Ok(())
    }

    /// `set_at` at the current time.
    pub fn set(&mut self, key: &str, value: &str, ttl: Option<u64>) -> (r: Result<(), StoreError>)
        requires
            old(self).wf(),
        ensures
            final(self).wf(),
            exists|now: u64|
                now >= old(self).time() && final(self).time() == #[trigger] later_of(
                    old(self).time(),
                    now,
                ) && match key_problem(key@) {
                    Some(msg) => r matches Err(StoreError::InvalidKey(m)) && m@ == msg
                        && final(self)@ == old(self)@,
                    None => r is Ok && final(self)@ == live_part(old(self)@, now).insert(
                        key@,
                        (value@, expiry(now, ttl)),
                    ),
                },
    {
        let now = self.now();
        self.set_at(key, value, ttl, now)
    }

    /// The value of `key` visible at `now`; `Ok(None)` when it is missing or expired.
    pub fn get_at(&self, key: &str, now: u64) -> (r: Result<Option<&str>, StoreError>)
        requires
            self.wf(),
        ensures
            match key_problem(key@) {
                Some(msg) => r matches Err(StoreError::InvalidKey(m)) && m@ == msg,
                None => r matches Ok(o) && opt_str_view(o) == lookup(self@, key@, now),
            },
    {
        let kc = chars_of(key);
        Self::validate_key(&kc)?;
        let (p, found) = self.find(&kc);
        proof {
            let s = self.slots();
            if found {
                lemma_slots_map_at(s, p as int);
            } else if has_key(s, key@) {
                let j = choose|j: int| 0 <= j < s.len() && #[trigger] s[j].key == key@;
                lemma_key_less_irreflexive(key@);
                assert(j < p ==> key_less(s[j].key, key@));
                assert(j >= p ==> key_less(key@, s[j].key));
            }
        }
        if found {
            if Self::is_expired(self.entries[p].expire_at, now) {
                Ok(None)
            } else {
                Ok(Some(self.entries[p].value.as_str()))
            }
        } else {
            Ok(None)
        }
    }

    /// `get_at` at the current time.
    pub fn get(&self, key: &str) -> (r: Result<Option<&str>, StoreError>)
        requires
            self.wf(),
        ensures
            match key_problem(key@) {
                Some(msg) => r matches Err(StoreError::InvalidKey(m)) && m@ == msg,
                None => r matches Ok(o) && exists|now: u64|
                    now >= self.time() && opt_str_view(o) == #[trigger] lookup(self@, key@, now),
            },
    {
        let now = self.now();
        self.get_at(key, now)
    }

    /// Removes `key`; `Ok(true)` when a value was visible at `now`. An expired
    /// entry counts as missing but is removed too.
    pub fn delete_at(&mut self, key: &str, now: u64) -> (r: Result<bool, StoreError>)
        requires
            old(self).wf(),
        ensures
            final(self).wf(),
            final(self).time() == later_of(old(self).time(), now),
            match key_problem(key@) {
                Some(msg) => r matches Err(StoreError::InvalidKey(m)) && m@ == msg && final(self)@
                    == old(self)@,
                None => r == Ok::<bool, StoreError>(lookup(old(self)@, key@, now) is Some)
                    && final(self)@ == old(self)@.remove(key@),
            },
    {
        self.note_time(now);
        let kc = chars_of(key);
        Self::validate_key(&kc)?;
        let (p, found) = self.find(&kc);
        let ghost s = self.slots();
        proof {
            if found {
                lemma_slots_map_at(s, p as int);
            } else if has_key(s, key@) {
                let j = choose|j: int| 0 <= j < s.len() && #[trigger] s[j].key == key@;
                lemma_key_less_irreflexive(key@);
                assert(j < p ==> key_less(s[j].key, key@));
                assert(j >= p ==> key_less(key@, s[j].key));
            }
        }
        if found {
            let existed = !Self::is_expired(self.entries[p].expire_at, now);
            self.entries.remove(p);
            proof {
                assert(self.slots() == s.remove(p as int));
                lemma_slots_map_remove(s, p as int);
            }
            Ok(existed)
        } else {
            assert(self@ =~= old(self)@.remove(key@));
            Ok(false)
        }
    }

    /// `delete_at` at the current time.
    pub fn delete(&mut self, key: &str) -> (r: Result<bool, StoreError>)
        requires
            old(self).wf(),
        ensures
            final(self).wf(),
            exists|now: u64|
                now >= old(self).time() && final(self).time() == #[trigger] later_of(
                    old(self).time(),
                    now,
                ) && match key_problem(key@) {
                    Some(msg) => r matches Err(StoreError::InvalidKey(m)) && m@ == msg
                        && final(self)@ == old(self)@,
                    None => r == Ok::<bool, StoreError>(lookup(old(self)@, key@, now) is Some)
                        && final(self)@ == old(self)@.remove(key@),
                },
    {
        let now = self.now();
        self.delete_at(key, now)
    }
}

impl KVStore {
    /// The keys visible at `now`, each once, in increasing order.
    pub fn list_at(&self, now: u64) -> (r: Vec<String>)
        requires
            self.wf(),
        ensures
            strictly_sorted(string_views(r@)),
            string_views(r@).to_set() == live_part(self@, now).dom(),
            forall|i: int| 0 <= i < r@.len() ==> key_problem(#[trigger] r@[i]@) is None,
    {
        let ghost s = self.slots();
        let mut out: Vec<String> = Vec::new();
        let ghost mut idx: Seq<int> = Seq::empty();
        let mut i: usize = 0;
        while i < self.entries.len()
            invariant
                self.wf(),
                s == self.slots(),
                i <= self.entries.len(),
                out@.len() == idx.len(),
                forall|a: int| 0 <= a < idx.len() ==> 0 <= #[trigger] idx[a] < i,
                forall|a: int| 0 <= a < idx.len() ==> out@[a]@ == s[#[trigger] idx[a]].key,
                forall|a: int|
                    0 <= a < idx.len() ==> is_live(
                        (s[#[trigger] idx[a]].value, s[idx[a]].expire_at),
                        now,
                    ),
                forall|a: int, b: int| 0 <= a < b < idx.len() ==> #[trigger] idx[a] < #[trigger] idx[b],
                forall|j: int|
                    0 <= j < i && is_live((s[j].value, s[j].expire_at), now) ==> exists|a: int|
                        0 <= a < idx.len() && #[trigger] idx[a] == j,
            decreases self.entries.len() - i,
        {
            if !Self::is_expired(self.entries[i].expire_at, now) {
                out.push(String::from_str(self.entries[i].key.as_str()));
                proof {
                    let old_idx = idx;
                    idx = idx.push(i as int);
                    assert forall|j: int|
                        0 <= j < i + 1 && is_live((s[j].value, s[j].expire_at), now) implies exists|
                        a: int,
                    | 0 <= a < idx.len() && #[trigger] idx[a] == j by {
                        if j < i {
                            let a = choose|a: int| 0 <= a < old_idx.len() && #[trigger] old_idx[a] == j;
                            assert(idx[a] == j);
                        } else {
                            assert(idx[idx.len() - 1] == j);
                        }
                    }
                }
            }
            i = i + 1;
        }
        proof {
            let ks = string_views(out@);
            let live = live_part(self@, now);
            assert forall|a: int, b: int| 0 <= a < b < ks.len() implies key_less(
                #[trigger] ks[a],
                #[trigger] ks[b],
            ) by {
                assert(idx[a] < idx[b]);
            }
            assert forall|k: Seq<char>| ks.to_set().contains(k) implies live.dom().contains(k) by {
                let a = choose|a: int| 0 <= a < ks.len() && ks[a] == k;
                lemma_slots_map_at(s, idx[a]);
            }
            assert forall|k: Seq<char>| live.dom().contains(k) implies ks.to_set().contains(k) by {
                let j = choose|j: int| 0 <= j < s.len() && #[trigger] s[j].key == k;
                lemma_slots_map_at(s, j);
                let a = choose|a: int| 0 <= a < idx.len() && #[trigger] idx[a] == j;
                assert(ks[a] == k);
            }
            assert(ks.to_set() =~= live.dom());
            assert forall|i: int| 0 <= i < out@.len() implies key_problem(#[trigger] out@[i]@)
                is None by {
                lemma_slots_map_at(s, idx[i]);
            }
        }
        out
    }

    /// `list_at` at the current time.
    pub fn list(&self) -> (r: Vec<String>)
        requires
            self.wf(),
        ensures
            strictly_sorted(string_views(r@)),
            forall|i: int| 0 <= i < r@.len() ==> key_problem(#[trigger] r@[i]@) is None,
            exists|now: u64|
                now >= self.time() && string_views(r@).to_set() == #[trigger] live_part(
                    self@,
                    now,
                ).dom(),
    {
        let now = self.now();
        self.list_at(now)
    }

    /// The number of keys visible at `now`.
    pub fn len_at(&self, now: u64) -> (r: usize)
        requires
            self.wf(),
        ensures
            r == live_part(self@, now).dom().len(),
    {
        let keys = self.list_at(now);
        proof {
            lemma_sorted_keys_count(string_views(keys@));
        }
        keys.len()
    }

    /// `len_at` at the current time.
    pub fn len(&self) -> (r: usize)
        requires
            self.wf(),
        ensures
            exists|now: u64| now >= self.time() && r == #[trigger] live_part(self@, now).dom().len(),
    {
        let now = self.now();
        self.len_at(now)
    }

    /// Whether no key is visible at `now`.
    pub fn is_empty_at(&self, now: u64) -> (r: bool)
        requires
            self.wf(),
        ensures
            r == (live_part(self@, now).dom().len() == 0),
    {
        self.len_at(now) == 0
    }

    /// `is_empty_at` at the current time.
    pub fn is_empty(&self) -> (r: bool)
        requires
            self.wf(),
        ensures
            exists|now: u64|
                now >= self.time() && r == (#[trigger] live_part(self@, now).dom().len() == 0),
    {
        let now = self.now();
        self.is_empty_at(now)
    }

    /// How many entries are held, expired ones included.
    pub fn entry_count(&self) -> (r: usize)
        requires
            self.wf(),
        ensures
            r == self@.dom().len(),
    {
        proof {
            let s = self.slots();
            let keys = s.map_values(|x: Slot| x.key);
            lemma_slots_map_finite(s);
            assert forall|i: int, j: int| 0 <= i < keys.len() && 0 <= j < keys.len() && i != j
                implies keys[i] != keys[j] by {
                if keys[i] == keys[j] {
                    lemma_unique_key(s, i, j);
                }
            }
            assert(keys.no_duplicates());
            keys.unique_seq_to_set();
        }
        self.entries.len()
    }

    /// Every key a store holds is one it accepts.
    pub proof fn lemma_keys_valid(&self)
        requires
            self.wf(),
        ensures
            forall|k: Seq<char>| #[trigger] self@.contains_key(k) ==> key_problem(k) is None,
    {
    }

    /// A store holds finitely many entries.
    pub proof fn lemma_view_finite(&self)
        requires
            self.wf(),
        ensures
            self@.dom().finite(),
    {
        lemma_slots_map_finite(self.slots());
    }

    /// Whether an entry for `key` is held, expired or not.
    pub fn contains_entry(&self, key: &str) -> (r: bool)
        requires
            self.wf(),
        ensures
            r == self@.contains_key(key@),
    {
        let kc = chars_of(key);
        let (p, found) = self.find(&kc);
        proof {
            let s = self.slots();
            if found {
                lemma_slots_map_at(s, p as int);
            } else if has_key(s, key@) {
                let j = choose|j: int| 0 <= j < s.len() && #[trigger] s[j].key == key@;
                lemma_key_less_irreflexive(key@);
                assert(j < p ==> key_less(s[j].key, key@));
                assert(j >= p ==> key_less(key@, s[j].key));
            }
        }
        found
    }
}

/// A strictly sorted list of keys has as many entries as distinct keys.
pub proof fn lemma_sorted_keys_count(ks: Seq<Seq<char>>)
    requires
        strictly_sorted(ks),
    ensures
        ks.to_set().len() == ks.len(),
        ks.to_set().finite(),
{
    assert forall|i: int, j: int| 0 <= i < ks.len() && 0 <= j < ks.len() && i != j implies ks[i]
        != ks[j] by {
        lemma_key_less_irreflexive(ks[i]);
        if i < j {
            assert(key_less(ks[i], ks[j]));
        } else {
            assert(key_less(ks[j], ks[i]));
        }
    }
    assert(ks.no_duplicates());
    ks.unique_seq_to_set();
    vstd::seq_lib::seq_to_set_is_finite(ks);
}

} // verus!

verus! {

/// Reading a key after writing it gives the value written for as long as the
/// value has not expired, and nothing afterwards; without a TTL it never expires.
pub proof fn law_get_after_set(
    m: Map<Seq<char>, (Seq<char>, Option<u64>)>,
    key: Seq<char>,
    value: Seq<char>,
    ttl: Option<u64>,
    now: u64,
    later: u64,
)
    ensures
        lookup(live_part(m, now).insert(key, (value, expiry(now, ttl))), key, later) == (if is_live(
            (value, expiry(now, ttl)),
            later,
        ) {
            Some(value)
        } else {
            None::<Seq<char>>
        }),
        ttl is None ==> lookup(
            live_part(m, now).insert(key, (value, expiry(now, ttl))),
            key,
            later,
        ) == Some(value),
{
}

/// A value written with a TTL of `secs` seconds is visible exactly before
/// `secs * 1000` milliseconds have passed (and never at the clock's last tick).
pub proof fn law_set_with_ttl_expires(
    m: Map<Seq<char>, (Seq<char>, Option<u64>)>,
    key: Seq<char>,
    value: Seq<char>,
    secs: u64,
    now: u64,
    later: u64,
)
    ensures
        lookup(live_part(m, now).insert(key, (value, expiry(now, Some(secs)))), key, later) is Some
            <==> (later < now + secs * 1000 && later < u64::MAX),
{
}

/// Writing a key leaves what every other key shows, then and later, unchanged.
pub proof fn law_set_keeps_other_keys(
    m: Map<Seq<char>, (Seq<char>, Option<u64>)>,
    key: Seq<char>,
    value: Seq<char>,
    ttl: Option<u64>,
    now: u64,
    other: Seq<char>,
    later: u64,
)
    requires
        other != key,
        now <= later,
    ensures
        lookup(live_part(m, now).insert(key, (value, expiry(now, ttl))), other, later) == lookup(
            m,
            other,
            later,
        ),
{
}

/// A deleted key shows nothing.
pub proof fn law_get_after_delete(m: Map<Seq<char>, (Seq<char>, Option<u64>)>, key: Seq<char>, t: u64)
    ensures
        lookup(m.remove(key), key, t) is None,
{
}

/// Once a key shows nothing, it keeps showing nothing as time goes on.
pub proof fn law_expired_stays_expired(
    m: Map<Seq<char>, (Seq<char>, Option<u64>)>,
    key: Seq<char>,
    t1: u64,
    t2: u64,
)
    requires
        t1 <= t2,
        lookup(m, key, t1) is None,
    ensures
        lookup(m, key, t2) is None,
{
}

/// The listing and the count agree: the count is the number of listed keys.
pub proof fn law_len_is_list_length(
    m: Map<Seq<char>, (Seq<char>, Option<u64>)>,
    now: u64,
    keys: Seq<Seq<char>>,
)
    requires
        strictly_sorted(keys),
        keys.to_set() == live_part(m, now).dom(),
    ensures
        keys.len() == live_part(m, now).dom().len(),
{
    lemma_sorted_keys_count(keys);
}

/// Every listed key is visible, and every visible key is listed.
pub proof fn law_list_is_live_keys(
    m: Map<Seq<char>, (Seq<char>, Option<u64>)>,
    now: u64,
    keys: Seq<Seq<char>>,
    k: Seq<char>,
)
    requires
        keys.to_set() == live_part(m, now).dom(),
    ensures
        keys.contains(k) <==> lookup(m, k, now) is Some,
{
    assert(keys.contains(k) <==> keys.to_set().contains(k));
}

/// A value written with a TTL of 0 is gone at once: no read at the time of
/// the write or later sees it.
pub proof fn law_ttl_zero_is_gone_at_once(
    m: Map<Seq<char>, (Seq<char>, Option<u64>)>,
    key: Seq<char>,
    value: Seq<char>,
    now: u64,
    later: u64,
)
    requires
        now <= later,
    ensures
        lookup(live_part(m, now).insert(key, (value, expiry(now, Some(0)))), key, later) is None,
{
}

/// Listing and reading agree: every listed key is one the store accepts, and
/// reading it at the same time gives its value.
pub proof fn law_listed_keys_are_readable(
    m: Map<Seq<char>, (Seq<char>, Option<u64>)>,
    now: u64,
    keys: Seq<Seq<char>>,
    k: Seq<char>,
)
    requires
        forall|x: Seq<char>| #[trigger] m.contains_key(x) ==> key_problem(x) is None,
        keys.to_set() == live_part(m, now).dom(),
        keys.contains(k),
    ensures
        key_problem(k) is None,
        lookup(m, k, now) == Some(m[k].0),
{
    assert(keys.to_set().contains(k));
}

} // verus!
