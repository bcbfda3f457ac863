//! The key-value store: string values, per-key deadlines, and expiry that
//! takes effect when an expired key is next looked at.
use vstd::prelude::*;
use crate::table::Table;

verus! {

/// What a store holds: values, and deadlines in seconds since the epoch.
pub ghost struct StoreModel {
    pub data: Map<Seq<char>, Seq<char>>,
    pub expires: Map<Seq<char>, u64>,
}

/// The deadline `secs` seconds after `now`, saturating at the largest
/// timestamp.
pub open spec fn deadline(now: u64, secs: int) -> u64 {
    if now + secs > u64::MAX {
        u64::MAX
    } else {
        (now + secs) as u64
    }
}

impl StoreModel {
    pub open spec fn empty() -> StoreModel {
        StoreModel { data: Map::empty(), expires: Map::empty() }
    }

    /// The key has a deadline and it lies before `now`.
    pub open spec fn expired(self, k: Seq<char>, now: u64) -> bool {
        self.expires.contains_key(k) && self.expires[k] < now
    }

    /// The store after `k` has been looked at: an expired key is gone from
    /// both mappings.
    pub open spec fn observe(self, k: Seq<char>, now: u64) -> StoreModel {
        if self.expired(k, now) {
            StoreModel { data: self.data.remove(k), expires: self.expires.remove(k) }
        } else {
            self
        }
    }

    /// The live value of `k` at `now`.
    pub open spec fn lookup(self, k: Seq<char>, now: u64) -> Option<Seq<char>> {
        if !self.expired(k, now) && self.data.contains_key(k) {
            Some(self.data[k])
        } else {
            None
        }
    }

    pub open spec fn live(self, k: Seq<char>, now: u64) -> bool {
        self.lookup(k, now) is Some
    }

    /// `k` holds `v`; any deadline it had stays.
    pub open spec fn with_value(self, k: Seq<char>, v: Seq<char>) -> StoreModel {
        StoreModel { data: self.data.insert(k, v), expires: self.expires }
    }

    /// The value of `k` is gone; its deadline, if any, stays until `k` is
    /// next looked at.
    pub open spec fn without(self, k: Seq<char>) -> StoreModel {
        StoreModel { data: self.data.remove(k), expires: self.expires }
    }

    /// A negative number of seconds deletes `k` at once; otherwise `k`
    /// expires `secs` seconds after `now`.
    pub open spec fn with_expiry(self, k: Seq<char>, secs: int, now: u64) -> StoreModel {
        if secs < 0 {
            StoreModel { data: self.data.remove(k), expires: self.expires.remove(k) }
        } else {
            StoreModel { data: self.data, expires: self.expires.insert(k, deadline(now, secs)) }
        }
    }

    /// `-2` for a key that is not live, `-1` for a live key without a
    /// deadline, else the whole seconds left (at most `i64::MAX`).
    pub open spec fn ttl(self, k: Seq<char>, now: u64) -> int {
        if !self.live(k, now) {
            -2
        } else if !self.expires.contains_key(k) {
            -1
        } else if self.expires[k] - now > i64::MAX {
            i64::MAX as int
        } else {
            self.expires[k] - now
        }
    }
}

/// After `clear`, no key is live, whatever the time.
pub proof fn lemma_clear_leaves_nothing_live(k: Seq<char>, now: u64)
    ensures
        !StoreModel::empty().live(k, now),
        StoreModel::empty().ttl(k, now) == -2,
{
}

/// After `set_expire_at(k, s, t)` with `s >= 0` on a live key, the time to
/// live at any later `t2` is what is left of the `s` seconds: `s` at once,
/// one less for each second that passes, and `-2` once the deadline has
/// gone by. (The deadline is taken to fit in a timestamp.)
pub proof fn lemma_ttl_counts_down(m: StoreModel, k: Seq<char>, s: int, t: u64, t2: u64)
    requires
        m.live(k, t),
        0 <= s <= i64::MAX,
        t + s <= u64::MAX,
        t <= t2,
    ensures
        m.with_expiry(k, s, t).ttl(k, t2) == if t2 <= t + s {
            t + s - t2
        } else {
            -2
        },
        t2 <= t + s ==> 0 <= m.with_expiry(k, s, t).ttl(k, t2) <= s,
{
}

pub struct Storage {
    data: Table<String>,
    expires: Table<u64>,
}

/// Relies on std::time::SystemTime::now, read as whole seconds since the
/// Unix epoch (zero for a clock set before it). Nothing is promised of the
/// value.
#[verifier::external_body]
pub(crate) fn unix_now() -> (r: u64) {
    match std::time::SystemTime::now().duration_since(std::time::UNIX_EPOCH) {
        Ok(d) => d.as_secs(),
        Err(_) => 0,
    }
}

impl Storage {
    pub closed spec fn wf(&self) -> bool {
        self.data.wf() && self.expires.wf()
    }

    pub closed spec fn view(&self) -> StoreModel {
        StoreModel {
            data: self.data.view().map_values(|s: String| s@),
            expires: self.expires.view(),
        }
    }

    proof fn lemma_data(&self, k: Seq<char>)
        ensures
            self.view().data.contains_key(k) == self.data.view().contains_key(k),
            self.data.view().contains_key(k) ==> self.view().data[k] == self.data.view()[k]@,
    {
    }

    pub fn new() -> (r: Self)
        ensures
            r.wf(),
            r.view() == StoreModel::empty(),
    {
        let r = Storage { data: Table::new(), expires: Table::new() };
        assert(r.view().data =~= Map::<Seq<char>, Seq<char>>::empty());
        r
    }

    /// Forgets `key` when it has expired by `now`.
    fn expire_if_due(&mut self, key: &String, now: u64)
        requires
            old(self).wf(),
        ensures
            final(self).wf(),
            final(self).view() == old(self).view().observe(key@, now),
    {
        let due = match self.expires.get(key) {
            Some(t) => *t < now,
            None => false,
        };
        if due {
            self.data.remove(key);
            self.expires.remove(key);
            assert(self.view().data =~= old(self).view().data.remove(key@));
        }
    }

    /// The live value of `key` at time `now`; an expired key is removed.
    pub fn get_at(&mut self, key: String, now: u64) -> (r: Option<String>)
        requires
            old(self).wf(),
        ensures
            final(self).wf(),
            final(self).view() == old(self).view().observe(key@, now),
            match r {
                Some(v) => old(self).view().lookup(key@, now) == Some(v@),
                None => old(self).view().lookup(key@, now) is None,
            },
    {
        self.expire_if_due(&key, now);
        proof {
            self.lemma_data(key@);
        }
        match self.data.get(&key) {
            Some(v) => Some(v.clone()),
            None => None,
        }
    }

    /// `get_at` at the current time.
    pub fn get(&mut self, key: String) -> (r: Option<String>)
        requires
            old(self).wf(),
        ensures
            final(self).wf(),
            exists|now: u64|
                final(self).view() == old(self).view().observe(key@, now) && match r {
                    Some(v) => old(self).view().lookup(key@, now) == Some(v@),
                    None => old(self).view().lookup(key@, now) is None,
                },
    {
        let now = unix_now();
        self.get_at(key, now)
    }

    /// Stores `value` under `key`, keeping any deadline the key has.
    pub fn set(&mut self, key: String, value: String)
        requires
            old(self).wf(),
        ensures
            final(self).wf(),
            final(self).view() == old(self).view().with_value(key@, value@),
    {
        let ghost k = key@;
        let ghost v = value@;
        self.data.insert(key, value);
        assert(self.view().data =~= old(self).view().data.insert(k, v));
    }

    /// Sets the deadline of `key` to `expire` seconds after `now`, or
    /// deletes it when `expire` is negative.
    pub fn set_expire_at(&mut self, key: String, expire: i64, now: u64) -> (r: Result<(), String>)
        requires
            old(self).wf(),
        ensures
            final(self).wf(),
            final(self).view() == old(self).view().with_expiry(key@, expire as int, now),
            r is Ok,
    {
        if expire < 0 {
            self.data.remove(&key);
            self.expires.remove(&key);
            assert(self.view().data =~= old(self).view().data.remove(key@));
        } else {
            let t = now.saturating_add(expire as u64);
            self.expires.insert(key, t);
        }
        Ok(())
    }

    /// `set_expire_at` at the current time.
    pub fn set_expire(&mut self, key: String, expire: i64) -> (r: Result<(), String>)
        requires
            old(self).wf(),
        ensures
            final(self).wf(),
            exists|now: u64|
                final(self).view() == old(self).view().with_expiry(key@, expire as int, now),
            r is Ok,
    {
        let now = unix_now();
        self.set_expire_at(key, expire, now)
    }

    /// The time to live of `key` at `now`, as `StoreModel::ttl` gives it;
    /// an expired key is removed.
    pub fn get_ttl_at(&mut self, key: String, now: u64) -> (r: i64)
        requires
            old(self).wf(),
        ensures
            final(self).wf(),
            final(self).view() == old(self).view().observe(key@, now),
            r == old(self).view().ttl(key@, now),
    {
        self.expire_if_due(&key, now);
        proof {
            self.lemma_data(key@);
        }
        if !self.data.contains(&key) {
            return -2;
        }
        match self.expires.get(&key) {
            Some(t) => {
                let left = *t - now;
                if left > i64::MAX as u64 {
                    i64::MAX
                } else {
                    left as i64
                }
            },
            None => -1,
        }
    }

    /// `get_ttl_at` at the current time.
    pub fn get_ttl(&mut self, key: String) -> (r: i64)
        requires
            old(self).wf(),
        ensures
            final(self).wf(),
            exists|now: u64|
                final(self).view() == old(self).view().observe(key@, now) && r == old(
                    self,
                ).view().ttl(key@, now),
    {
        let now = unix_now();
        self.get_ttl_at(key, now)
    }

    /// Whether `key` has a live value at `now`; an expired key is removed.
    pub fn has_at(&mut self, key: String, now: u64) -> (r: bool)
        requires
            old(self).wf(),
        ensures
            final(self).wf(),
            final(self).view() == old(self).view().observe(key@, now),
            r == old(self).view().live(key@, now),
    {
        self.expire_if_due(&key, now);
        proof {
            self.lemma_data(key@);
        }
        self.data.contains(&key)
    }

    /// `has_at` at the current time.
    pub fn has(&mut self, key: String) -> (r: bool)
        requires
            old(self).wf(),
        ensures
            final(self).wf(),
            exists|now: u64|
                final(self).view() == old(self).view().observe(key@, now) && r == old(
                    self,
                ).view().live(key@, now),
    {
        let now = unix_now();
        self.has_at(key, now)
    }

    /// Removes the value of `key`.
    pub fn del(&mut self, key: String)
        requires
            old(self).wf(),
        ensures
            final(self).wf(),
            final(self).view() == old(self).view().without(key@),
    {
        self.data.remove(&key);
        assert(self.view().data =~= old(self).view().data.remove(key@));
    }

    /// Empties both the values and the deadlines.
    pub fn clear(&mut self)
        requires
            old(self).wf(),
        ensures
            final(self).wf(),
            final(self).view() == StoreModel::empty(),
    {
        self.data.clear();
        self.expires.clear();
        assert(self.view().data =~= Map::<Seq<char>, Seq<char>>::empty());
    }
}

} // verus!
