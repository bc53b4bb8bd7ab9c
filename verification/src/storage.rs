//! The expiring string keyspace.
//!
//! Each key maps to a value and an optional absolute millisecond
//! deadline.  A deadline in the past does not remove the entry by itself:
//! removal is lazy, on the next read of that key.
use vstd::prelude::*;
use vstd::string::StringExecFns;

verus! {

/// A value with its optional expiry deadline.
pub type ValueType = (String, Option<u128>);

/// The keyspace: a list of entries with pairwise distinct keys, seen as a
/// map from key text to value text and deadline.
pub struct Storage {
    entries: Vec<(String, ValueType)>,
}

/// The saturating sum, used for expiry deadlines near the end of time.
pub open spec fn sat_add_u128(a: u128, b: u128) -> u128 {
    if a + b > u128::MAX {
        u128::MAX
    } else {
        (a + b) as u128
    }
}

/// What a read returns: nothing for an absent or expired key, else the
/// value.
pub open spec fn get_result(
    m: Map<Seq<char>, (Seq<char>, Option<u128>)>,
    k: Seq<char>,
    now: u128,
) -> Option<Seq<char>> {
    if m.contains_key(k) {
        match m[k].1 {
            Some(e) => if now > e {
                None
            } else {
                Some(m[k].0)
            },
            None => Some(m[k].0),
        }
    } else {
        None
    }
}

/// The keyspace after a read: unchanged, unless the key had expired and
/// was removed.
pub open spec fn after_get(
    m: Map<Seq<char>, (Seq<char>, Option<u128>)>,
    k: Seq<char>,
    now: u128,
) -> Map<Seq<char>, (Seq<char>, Option<u128>)> {
    if m.contains_key(k) && (match m[k].1 {
        Some(e) => now > e,
        None => false,
    }) {
        m.remove(k)
    } else {
        m
    }
}

/// A read at one instant, together with the keyspace it leaves behind.
pub open spec fn get_post(
    m: Map<Seq<char>, (Seq<char>, Option<u128>)>,
    k: Seq<char>,
    now: u128,
    r: Option<Seq<char>>,
    m2: Map<Seq<char>, (Seq<char>, Option<u128>)>,
) -> bool {
    r == get_result(m, k, now) && m2 == after_get(m, k, now)
}

impl View for Storage {
    type V = Map<Seq<char>, (Seq<char>, Option<u128>)>;

    /// The map the entry list stands for.
    closed spec fn view(&self) -> Map<Seq<char>, (Seq<char>, Option<u128>)> {
        Map::new(
            |k: Seq<char>|
                exists|i: int|
                    0 <= i < self.entries@.len() && (#[trigger] self.entries@[i]).0@ == k,
            |k: Seq<char>|
                {
                    let i = choose|i: int|
                        0 <= i < self.entries@.len() && (#[trigger] self.entries@[i]).0@ == k;
                    (self.entries@[i].1.0@, self.entries@[i].1.1)
                },
        )
    }
}

impl Storage {
    /// Keys are pairwise distinct, so each key names one entry.
    pub closed spec fn wf(&self) -> bool {
        forall|i: int, j: int|
            0 <= i < j < self.entries@.len() ==> (#[trigger] self.entries@[i]).0@ != (
            #[trigger] self.entries@[j]).0@
    }

    /// An empty keyspace.
    pub fn new() -> (r: Storage)
        ensures
            r.wf(),
            r@ == Map::<Seq<char>, (Seq<char>, Option<u128>)>::empty(),
    {
        let r = Storage { entries: Vec::new() };
        proof {
            assert(r@ =~= Map::<Seq<char>, (Seq<char>, Option<u128>)>::empty());
        }
        r
    }

    /// The position of a key's entry, if the key is present.
    fn find_idx(&self, k: &str) -> (r: Option<usize>)
        ensures
            match r {
                Some(i) => i < self.entries@.len() && self.entries@[i as int].0@ == k@,
                None => forall|i: int|
                    0 <= i < self.entries@.len() ==> (#[trigger] self.entries@[i]).0@ != k@,
            },
    {
        let key = String::from_str(k);
        let n = self.entries.len();
        let mut i: usize = 0;
        while i < n
            invariant
                i <= n,
                n == self.entries@.len(),
                key@ == k@,
                forall|j: int| 0 <= j < i ==> (#[trigger] self.entries@[j]).0@ != k@,
            decreases n - i,
        {
            if self.entries[i].0 == key {
                return Some(i);
            }
            i += 1;
        }
        None
    }

    /// Whether the key names an entry, expired or not.
    proof fn lemma_view_at(&self, i: int)
        requires
            self.wf(),
            0 <= i < self.entries@.len(),
        ensures
            self@.contains_key(self.entries@[i].0@),
            self@[self.entries@[i].0@] == (self.entries@[i].1.0@, self.entries@[i].1.1),
    {
        let k = self.entries@[i].0@;
        assert(exists|j: int|
            0 <= j < self.entries@.len() && (#[trigger] self.entries@[j]).0@ == k);
        let j = choose|j: int|
            0 <= j < self.entries@.len() && (#[trigger] self.entries@[j]).0@ == k;
        assert(j == i);
    }

    /// Removes any entry the key names, leaving the rest as they were.
    fn remove_entry(&mut self, k: &str)
        requires
            old(self).wf(),
        ensures
            final(self).wf(),
            final(self)@ == old(self)@.remove(k@),
    {
        match self.find_idx(k) {
            Some(i) => {
                let ghost pre = *self;
                self.entries.remove(i);
                proof {
                    assert forall|a: int, b: int|
                        0 <= a < b < self.entries@.len() implies (#[trigger] self.entries@[a]).0@
                        != (#[trigger] self.entries@[b]).0@ by {
                        let a0 = if a < i { a } else { a + 1 };
                        let b0 = if b < i { b } else { b + 1 };
                        assert(self.entries@[a] == pre.entries@[a0]);
                        assert(self.entries@[b] == pre.entries@[b0]);
                    }
                    assert forall|x: Seq<char>| #[trigger]
                        self@.contains_key(x) == pre@.remove(k@).contains_key(x) && (
                    self@.contains_key(x) ==> self@[x] == pre@.remove(k@)[x]) by {
                        if x == k@ {
                            if self@.contains_key(x) {
                                let j = choose|j: int|
                                    0 <= j < self.entries@.len() && (#[trigger] self.entries@[j]).0@
                                        == x;
                                let j0 = if j < i { j } else { j + 1 };
                                assert(pre.entries@[j0].0@ == x);
                                assert(pre.entries@[i as int].0@ == x);
                                assert(false);
                            }
                        } else {
                            if pre@.contains_key(x) {
                                let j0 = choose|j: int|
                                    0 <= j < pre.entries@.len() && (#[trigger] pre.entries@[j]).0@
                                        == x;
                                let j = if j0 < i { j0 } else { j0 - 1 };
                                assert(j0 != i);
                                assert(self.entries@[j] == pre.entries@[j0]);
                                assert(self@.contains_key(x));
                                self.lemma_view_at(j);
                                pre.lemma_view_at(j0);
                            }
                            if self@.contains_key(x) {
                                let j = choose|j: int|
                                    0 <= j < self.entries@.len() && (#[trigger] self.entries@[j]).0@
                                        == x;
                                let j0 = if j < i { j } else { j + 1 };
                                assert(pre.entries@[j0].0@ == x);
                                assert(pre@.contains_key(x));
                            }
                        }
                    }
                    assert(self@ =~= pre@.remove(k@));
                }
            },
            None => {
                proof {
                    assert forall|x: Seq<char>| #[trigger]
                        self@.contains_key(x) ==> x != k@ by {
                        if self@.contains_key(x) {
                            let j = choose|j: int|
                                0 <= j < self.entries@.len() && (#[trigger] self.entries@[j]).0@
                                    == x;
                        }
                    }
                    assert(self@ =~= old(self)@.remove(k@));
                }
            },
        }
    }

    /// Overwrites the key with a value and no expiry.
    pub fn set(&mut self, k: String, v: String)
        requires
            old(self).wf(),
        ensures
            final(self).wf(),
            final(self)@ == old(self)@.insert(k@, (v@, None)),
    {
        self.set_with_deadline(k, v, None)
    }

    /// Overwrites the key with a value and an optional absolute deadline.
    pub fn set_with_deadline(&mut self, k: String, v: String, deadline: Option<u128>)
        requires
            old(self).wf(),
        ensures
            final(self).wf(),
            final(self)@ == old(self)@.insert(k@, (v@, deadline)),
    {
        self.remove_entry(k.as_str());
        let ghost mid = *self;
        let ghost gk = k@;
        let ghost gv = v@;
        self.entries.push((k, (v, deadline)));
        proof {
            assert forall|a: int, b: int|
                0 <= a < b < self.entries@.len() implies (#[trigger] self.entries@[a]).0@ != (
            #[trigger] self.entries@[b]).0@ by {
                if b < self.entries@.len() - 1 {
                    assert(self.entries@[a] == mid.entries@[a]);
                    assert(self.entries@[b] == mid.entries@[b]);
                } else {
                    assert(self.entries@[b].0@ == gk);
                    assert(self.entries@[a] == mid.entries@[a]);
                    if mid.entries@[a].0@ == gk {
                        mid.lemma_view_at(a);
                        assert(mid@.contains_key(gk));
                        assert(false);
                    }
                }
            }
            let n = self.entries@.len() - 1;
            assert forall|x: Seq<char>| #[trigger]
                self@.contains_key(x) == mid@.insert(gk, (gv, deadline)).contains_key(x) && (
            self@.contains_key(x) ==> self@[x] == mid@.insert(gk, (gv, deadline))[x]) by {
                if x == gk {
                    assert(self.entries@[n].0@ == x);
                    self.lemma_view_at(n);
                } else {
                    if mid@.contains_key(x) {
                        let j = choose|j: int|
                            0 <= j < mid.entries@.len() && (#[trigger] mid.entries@[j]).0@ == x;
                        assert(self.entries@[j] == mid.entries@[j]);
                        self.lemma_view_at(j);
                        mid.lemma_view_at(j);
                    }
                    if self@.contains_key(x) {
                        let j = choose|j: int|
                            0 <= j < self.entries@.len() && (#[trigger] self.entries@[j]).0@ == x;
                        assert(j != n);
                        assert(mid.entries@[j] == self.entries@[j]);
                        assert(mid@.contains_key(x));
                    }
                }
            }
            assert(self@ =~= mid@.insert(gk, (gv, deadline)));
        }
    }

    /// Overwrites the key with a value that expires `expire_ms`
    /// milliseconds after `now`; the deadline saturates at the end of
    /// time.
    pub fn setx_at(&mut self, k: String, v: String, expire_ms: u128, now: u128)
        requires
            old(self).wf(),
        ensures
            final(self).wf(),
            final(self)@ == old(self)@.insert(k@, (v@, Some(sat_add_u128(expire_ms, now)))),
    {
        let deadline = match expire_ms.checked_add(now) {
            Some(d) => d,
            None => u128::MAX,
        };
        self.set_with_deadline(k, v, Some(deadline))
    }

    /// Overwrites the key with a value that expires `expire_ms`
    /// milliseconds from now, the wall clock read inside.
    pub fn setx(&mut self, k: String, v: String, expire_ms: u128)
        requires
            old(self).wf(),
        ensures
            final(self).wf(),
            exists|now: u128|
                final(self)@ == old(self)@.insert(
                    k@,
                    (v@, Some(sat_add_u128(expire_ms, now))),
                ),
    {
        let now = now_in_millis();
        self.setx_at(k, v, expire_ms, now)
    }

    /// Reads the key at the instant `now`: an entry whose deadline has
    /// passed is removed and reads as absent.
    pub fn get_at(&mut self, k: &str, now: u128) -> (r: Option<String>)
        requires
            old(self).wf(),
        ensures
            final(self).wf(),
            get_post(old(self)@, k@, now, r.deep_view(), final(self)@),
    {
        match self.find_idx(k) {
            None => {
                proof {
                    assert forall|x: Seq<char>| #[trigger]
                        self@.contains_key(x) ==> x != k@ by {
                        if self@.contains_key(x) {
                            let j = choose|j: int|
                                0 <= j < self.entries@.len() && (#[trigger] self.entries@[j]).0@
                                    == x;
                        }
                    }
                }
                None
            },
            Some(i) => {
                proof {
                    self.lemma_view_at(i as int);
                }
                let expired = match self.entries[i].1.1 {
                    Some(e) => now > e,
                    None => false,
                };
                if expired {
                    self.remove_entry(k);
                    None
                } else {
                    Some(self.entries[i].1.0.clone())
                }
            },
        }
    }

    /// Reads the key at the wall clock inside; an entry whose deadline
    /// has passed is removed and reads as absent.
    pub fn get(&mut self, k: &str) -> (r: Option<String>)
        requires
            old(self).wf(),
        ensures
            final(self).wf(),
            exists|now: u128| get_post(old(self)@, k@, now, r.deep_view(), final(self)@),
    {
        let now = now_in_millis();
        self.get_at(k, now)
    }

    /// Removes any mapping for the key.
    pub fn del(&mut self, k: String)
        requires
            old(self).wf(),
        ensures
            final(self).wf(),
            final(self)@ == old(self)@.remove(k@),
    {
        self.remove_entry(k.as_str())
    }

    /// The current keys, in no particular order, without duplicates.
    pub fn keys(self: &Self) -> (r: Vec<String>)
        requires
            self.wf(),
        ensures
            forall|i: int| 0 <= i < r@.len() ==> self@.contains_key((#[trigger] r@[i])@),
            forall|k: Seq<char>|
                self@.contains_key(k) ==> exists|i: int| 0 <= i < r@.len() && (#[trigger] r@[i])@
                    == k,
            forall|i: int, j: int| 0 <= i < j < r@.len() ==> (#[trigger] r@[i])@ != (
            #[trigger] r@[j])@,
    {
        let n = self.entries.len();
        let mut out: Vec<String> = Vec::new();
        let mut i: usize = 0;
        while i < n
            invariant
                i <= n,
                n == self.entries@.len(),
                self.wf(),
                out@.len() == i,
                forall|j: int| 0 <= j < i ==> (#[trigger] out@[j])@ == self.entries@[j].0@,
            decreases n - i,
        {
            out.push(self.entries[i].0.clone());
            i += 1;
        }
        proof {
            assert forall|j: int| 0 <= j < out@.len() implies self@.contains_key(
                (#[trigger] out@[j])@,
            ) by {
                self.lemma_view_at(j);
            }
            assert forall|k: Seq<char>| self@.contains_key(k) implies exists|j: int|
                0 <= j < out@.len() && (#[trigger] out@[j])@ == k by {
                let j = choose|j: int|
                    0 <= j < self.entries@.len() && (#[trigger] self.entries@[j]).0@ == k;
                assert(out@[j]@ == k);
            }
        }
        out
    }
}

/// Relies on std::time::SystemTime::now and duration_since: the wall
/// clock as milliseconds since the Unix epoch, or 0 should the clock
/// read earlier than the epoch.
#[verifier::external_body]
pub fn now_in_millis() -> u128 {
    match std::time::SystemTime::now().duration_since(std::time::UNIX_EPOCH) {
        Ok(d) => d.as_millis(),
        Err(_) => 0,
    }
}

/// Expiry is monotone in time: a key written with a time-to-live `t` at
/// instant `at` reads back before the deadline passes, and reads as
/// absent after it.
pub proof fn lemma_expiry_monotonic(
    m: Map<Seq<char>, (Seq<char>, Option<u128>)>,
    k: Seq<char>,
    v: Seq<char>,
    t: u128,
    at: u128,
    delta: u128,
)
    requires
        at + t <= u128::MAX,
        at + delta <= u128::MAX,
    ensures
        delta > t ==> get_result(
            m.insert(k, (v, Some(sat_add_u128(t, at)))),
            k,
            (at + delta) as u128,
        ) is None,
        delta <= t ==> get_result(
            m.insert(k, (v, Some(sat_add_u128(t, at)))),
            k,
            (at + delta) as u128,
        ) == Some(v),
{
}

} // verus!
