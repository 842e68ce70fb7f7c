//! The expiring key-value store: each value may carry an absolute deadline in
//! milliseconds since the Unix epoch, after which reads no longer see it.
use vstd::prelude::*;

verus! {

/// A stored value and the instant after which it is no longer visible.
#[derive(Debug, Clone)]
pub struct ValueState {
    pub value: String,
    pub expiry: Option<u128>,
}

/// The instant `ttl` milliseconds after `now`, held at the largest instant
/// that a `u128` can count when the sum would pass it.
pub open spec fn deadline(now: u128, ttl: u128) -> u128 {
    if now + ttl > u128::MAX {
        u128::MAX
    } else {
        (now + ttl) as u128
    }
}

/// Relies on `std::time::SystemTime::elapsed` on the Unix epoch: the time now,
/// or an error when the system clock stands before the epoch.
#[verifier::external_body]
fn clock_since_epoch() -> (r: Option<u128>) {
    match std::time::UNIX_EPOCH.elapsed() {
        Ok(d) => Some(d.as_millis()),
        Err(_) => None,
    }
}

/// Milliseconds since the Unix epoch; a clock set before the epoch reads as the epoch.
pub fn now_millis() -> (r: u128) {
    match clock_since_epoch() {
        Some(t) => t,
        None => 0,
    }
}

/// An entry as text and deadline.
pub type Entry = (Seq<char>, Option<u128>);

/// What a read at `now` sees of an entry: its text, unless its deadline has passed.
pub open spec fn live_entry(e: Entry, now: u128) -> Option<Seq<char>> {
    match e.1 {
        Some(t) => if now > t {
            None
        } else {
            Some(e.0)
        },
        None => Some(e.0),
    }
}

impl View for ValueState {
    type V = Entry;

    open spec fn view(&self) -> Entry {
        (self.value@, self.expiry)
    }
}

impl ValueState {
    /// What a read at `now` sees of this value.
    pub open spec fn live_value(&self, now: u128) -> Option<Seq<char>> {
        live_entry(self@, now)
    }

    /// A value that never expires.
    pub fn no_expiry(value: String) -> (r: Self)
        ensures
            r.value == value,
            r.expiry == None::<u128>,
    {
        ValueState { value, expiry: None }
    }

    /// A value that expires `ttl` milliseconds after `now`.
    pub fn with_expiry_at(value: String, ttl: u128, now: u128) -> (r: Self)
        ensures
            r.value == value,
            r.expiry == Some(deadline(now, ttl)),
    {
        let at = if ttl > u128::MAX - now {
            u128::MAX
        } else {
            now + ttl
        };
        ValueState { value, expiry: Some(at) }
    }

    /// A value that expires `expiry` milliseconds after the time of the call.
    pub fn with_expiry(value: String, expiry: u128) -> (r: Self)
        ensures
            r.value == value,
            exists|now: u128| r.expiry == Some(#[trigger] deadline(now, expiry)),
    {
        let now = now_millis();
        Self::with_expiry_at(value, expiry, now)
    }

    /// The value as a read at `now` sees it.
    pub fn value_after_expiry_at(&self, now: u128) -> (r: Option<&String>)
        ensures
            r == (match self.live_value(now) {
                Some(_) => Some(&self.value),
                None => None,
            }),
    {
        match self.expiry {
            Some(t) => {
                if now > t {
                    None
                } else {
                    Some(&self.value)
                }
            },
            None => Some(&self.value),
        }
    }

    /// The value as a read at the time of the call sees it.
    pub fn value_after_expiry(&self) -> (r: Option<&String>)
        ensures
            exists|now: u128|
                r == (match #[trigger] self.live_value(now) {
                    Some(_) => Some(&self.value),
                    None => None,
                }),
    {
        let now = now_millis();
        self.value_after_expiry_at(now)
    }
}

/// The store: one entry for each key.
#[derive(Debug)]
pub struct RedisState {
    entries: Vec<(String, ValueState)>,
}

/// What a read at `now` sees under key `k` of a store whose contents are `m`.
pub open spec fn live(m: Map<Seq<char>, Entry>, k: Seq<char>, now: u128) -> Option<Seq<char>> {
    if m.contains_key(k) {
        live_entry(m[k], now)
    } else {
        None
    }
}

/// The entry that a write of `v` with an optional time-to-live at `now` stores.
pub open spec fn entry_of(v: Seq<char>, ttl: Option<u128>, now: u128) -> Entry {
    match ttl {
        Some(d) => (v, Some(deadline(now, d))),
        None => (v, None),
    }
}

impl View for RedisState {
    type V = Map<Seq<char>, Entry>;

    closed spec fn view(&self) -> Map<Seq<char>, Entry> {
        Map::new(
            |k: Seq<char>| exists|i: int| 0 <= i < self.entries@.len() && #[trigger] self.entries@[i].0@ == k,
            |k: Seq<char>| self.entries@[choose|i: int| 0 <= i < self.entries@.len() && #[trigger] self.entries@[i].0@ == k].1@,
        )
    }
}

impl RedisState {
    /// No two entries share a key.
    pub closed spec fn wf(&self) -> bool {
        forall|i: int, j: int|
            0 <= i < self.entries@.len() && 0 <= j < self.entries@.len() && i != j
                ==> #[trigger] self.entries@[i].0@ != #[trigger] self.entries@[j].0@
    }

    proof fn lemma_lookup(&self, i: int)
        requires
            self.wf(),
            0 <= i < self.entries@.len(),
        ensures
            self@.contains_key(self.entries@[i].0@),
            self@[self.entries@[i].0@] == self.entries@[i].1@,
    {
        let k = self.entries@[i].0@;
        assert(self@.contains_key(k));
        let j = choose|j: int| 0 <= j < self.entries@.len() && #[trigger] self.entries@[j].0@ == k;
        assert(j == i);
    }

    /// An empty store.
    pub fn new() -> (r: Self)
        ensures
            r.wf(),
            r@ == Map::<Seq<char>, Entry>::empty(),
    {
        let r = RedisState { entries: Vec::new() };
        assert(r@ =~= Map::<Seq<char>, Entry>::empty());
        r
    }

    /// The position of the entry under `key`.
    fn find(&self, key: &String) -> (r: Option<usize>)
        requires
            self.wf(),
        ensures
            match r {
                Some(i) => i < self.entries@.len() && self.entries@[i as int].0@ == key@,
                None => !self@.contains_key(key@),
            },
    {
        let mut i: usize = 0;
        while i < self.entries.len()
            invariant
                i <= self.entries@.len(),
                forall|j: int| 0 <= j < i ==> #[trigger] self.entries@[j].0@ != key@,
            decreases self.entries@.len() - i,
        {
            if self.entries[i].0 == *key {
                return Some(i);
            }
            i = i + 1;
        }
        None
    }

    /// The entry stored under `key`, expired or not.
    pub fn get(&self, key: &String) -> (r: Option<&ValueState>)
        requires
            self.wf(),
        ensures
            match r {
                Some(v) => self@.contains_key(key@) && v@ == self@[key@],
                None => !self@.contains_key(key@),
            },
    {
        match self.find(key) {
            Some(i) => {
                proof {
                    self.lemma_lookup(i as int);
                }
                Some(&self.entries[i].1)
            },
            None => None,
        }
    }

    /// Stores `value` under `key`, replacing whatever was there.
    pub fn insert(&mut self, key: String, value: ValueState)
        requires
            old(self).wf(),
        ensures
            final(self).wf(),
            final(self)@ == old(self)@.insert(key@, value@),
    {
        let ghost k = key@;
        let ghost v = value@;
        let ghost before = self.entries@;
        match self.find(&key) {
            Some(i) => {
                self.entries.set(i, (key, value));
                proof {
                    assert forall|a: int, b: int|
                        0 <= a < self.entries@.len() && 0 <= b < self.entries@.len() && a != b
                            implies #[trigger] self.entries@[a].0@ != #[trigger] self.entries@[b].0@ by {
                        assert(before[a].0@ != before[b].0@);
                    }
                    assert forall|x: Seq<char>| #[trigger] self@.contains_key(x) == old(self)@.insert(k, v).contains_key(x) by {
                        if x != k && old(self)@.contains_key(x) {
                            let j = choose|j: int| 0 <= j < before.len() && #[trigger] before[j].0@ == x;
                            assert(self.entries@[j].0@ == x);
                        }
                        if self@.contains_key(x) && x != k {
                            let j = choose|j: int| 0 <= j < self.entries@.len() && #[trigger] self.entries@[j].0@ == x;
                            assert(before[j].0@ == x);
                        }
                        assert(self.entries@[i as int].0@ == k);
                    }
                    assert forall|x: Seq<char>| #[trigger] self@.contains_key(x) implies self@[x] == old(self)@.insert(k, v)[x] by {
                        let j = choose|j: int| 0 <= j < self.entries@.len() && #[trigger] self.entries@[j].0@ == x;
                        self.lemma_lookup(j);
                        if x != k {
                            assert(j != i);
                            old(self).lemma_lookup(j);
                        }
                    }
                    assert(self@ =~= old(self)@.insert(k, v));
                }
            },
            None => {
                self.entries.push((key, value));
                proof {
                    let n = before.len() as int;
                    assert forall|a: int, b: int|
                        0 <= a < self.entries@.len() && 0 <= b < self.entries@.len() && a != b
                            implies #[trigger] self.entries@[a].0@ != #[trigger] self.entries@[b].0@ by {
                        if a < n && b < n {
                            assert(before[a].0@ != before[b].0@);
                        } else if a < n {
                            assert(old(self)@.contains_key(before[a].0@));
                        } else if b < n {
                            assert(old(self)@.contains_key(before[b].0@));
                        }
                    }
                    assert forall|x: Seq<char>| #[trigger] self@.contains_key(x) == old(self)@.insert(k, v).contains_key(x) by {
                        if x != k && old(self)@.contains_key(x) {
                            let j = choose|j: int| 0 <= j < before.len() && #[trigger] before[j].0@ == x;
                            assert(self.entries@[j].0@ == x);
                        }
                        if self@.contains_key(x) && x != k {
                            let j = choose|j: int| 0 <= j < self.entries@.len() && #[trigger] self.entries@[j].0@ == x;
                            assert(before[j].0@ == x);
                        }
                        assert(self.entries@[n].0@ == k);
                    }
                    assert forall|x: Seq<char>| #[trigger] self@.contains_key(x) implies self@[x] == old(self)@.insert(k, v)[x] by {
                        let j = choose|j: int| 0 <= j < self.entries@.len() && #[trigger] self.entries@[j].0@ == x;
                        self.lemma_lookup(j);
                        if x != k {
                            assert(j != n);
                            old(self).lemma_lookup(j);
                        }
                    }
                    assert(self@ =~= old(self)@.insert(k, v));
                }
            },
        }
    }

    /// Stores `value` under `key` at `now`, to expire `ttl` milliseconds later
    /// when a time-to-live is given and never otherwise.
    pub fn set_at(&mut self, key: String, value: String, ttl: Option<u128>, now: u128)
        requires
            old(self).wf(),
        ensures
            final(self).wf(),
            final(self)@ == old(self)@.insert(key@, entry_of(value@, ttl, now)),
    {
        let entry = match ttl {
            Some(d) => ValueState::with_expiry_at(value, d, now),
            None => ValueState::no_expiry(value),
        };
        self.insert(key, entry);
    }

    /// The value under `key` as a read at `now` sees it.
    pub fn get_at(&self, key: &String, now: u128) -> (r: Option<String>)
        requires
            self.wf(),
        ensures
            match r {
                Some(s) => live(self@, key@, now) == Some(s@),
                None => live(self@, key@, now) == None::<Seq<char>>,
            },
    {
        match self.get(key) {
            Some(v) => match v.value_after_expiry_at(now) {
                Some(s) => Some(s.clone()),
                None => None,
            },
            None => None,
        }
    }
}

/// A value written with a time-to-live of `d` milliseconds at `now` is seen by
/// a read at any instant up to `now + d`, and by no read after that, without
/// another write in between.
pub proof fn lemma_expiry(m: Map<Seq<char>, Entry>, k: Seq<char>, v: Seq<char>, d: u128, now: u128, t: u128)
    ensures
        t <= now + d ==> live(m.insert(k, entry_of(v, Some(d), now)), k, t) == Some(v),
        t > now + d ==> live(m.insert(k, entry_of(v, Some(d), now)), k, t) == None::<Seq<char>>,
{
}

/// A value written without a time-to-live is seen by every read, at any time,
/// however many writes under other keys come after it.
pub proof fn lemma_no_expiry(m: Map<Seq<char>, Entry>, k: Seq<char>, v: Seq<char>, now: u128, t: u128, others: Seq<(Seq<char>, Entry)>)
    requires
        forall|i: int| 0 <= i < others.len() ==> (#[trigger] others[i]).0 != k,
    ensures
        live(write_all(m.insert(k, entry_of(v, None, now)), others), k, t) == Some(v),
    decreases others.len(),
{
    if others.len() > 0 {
        lemma_no_expiry(m, k, v, now, t, others.drop_last());
        assert(others.last().0 != k);
    }
}

/// The contents after writing each entry of `writes` in turn.
pub open spec fn write_all(m: Map<Seq<char>, Entry>, writes: Seq<(Seq<char>, Entry)>) -> Map<Seq<char>, Entry>
    decreases writes.len(),
{
    if writes.len() == 0 {
        m
    } else {
        write_all(m, writes.drop_last()).insert(writes.last().0, writes.last().1)
    }
}

} // verus!
