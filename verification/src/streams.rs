//! Append-only ordered streams, keyed by name.
//!
//! A stream holds entries with strictly increasing ids; an id is a pair
//! of a millisecond part and a sequence part, ordered lexicographically.
//! The id 0-0 is never allowed.
use vstd::prelude::*;
use vstd::string::StringExecFns;
use crate::cmd::pair_views;

verus! {

/// A stream entry id: the pair rendered textually as `ms-seq`.
#[derive(PartialEq, Eq, Structural, Clone, Copy, Debug)]
pub struct StreamId {
    pub ms: u64,
    pub seq: u64,
}

/// The total order on ids: lexicographic on the pair.
pub open spec fn id_lt(a: StreamId, b: StreamId) -> bool {
    a.ms < b.ms || (a.ms == b.ms && a.seq < b.seq)
}

pub open spec fn id_le(a: StreamId, b: StreamId) -> bool {
    id_lt(a, b) || a == b
}

impl StreamId {
    /// Strictly before the other id.
    pub fn lt(&self, o: &StreamId) -> (r: bool)
        ensures
            r == id_lt(*self, *o),
    {
        self.ms < o.ms || (self.ms == o.ms && self.seq < o.seq)
    }

    /// At or before the other id.
    pub fn le(&self, o: &StreamId) -> (r: bool)
        ensures
            r == id_le(*self, *o),
    {
        self.ms < o.ms || (self.ms == o.ms && self.seq <= o.seq)
    }
}

/// One stream entry: an id and its field-value pairs.
#[derive(Debug)]
pub struct StreamEntry {
    pub id: StreamId,
    pub fields: Vec<(String, String)>,
}

pub type EntryView = (StreamId, Seq<(Seq<char>, Seq<char>)>);

impl View for StreamEntry {
    type V = EntryView;

    open spec fn view(&self) -> EntryView {
        (self.id, pair_views(self.fields@))
    }
}

/// Copies a list of field-value pairs.
pub(crate) fn clone_pairs(v: &Vec<(String, String)>) -> (r: Vec<(String, String)>)
    ensures
        pair_views(r@) == pair_views(v@),
{
    let mut out: Vec<(String, String)> = Vec::new();
    let n = v.len();
    let mut i: usize = 0;
    while i < n
        invariant
            i <= n,
            n == v@.len(),
            out@.len() == i,
            forall|j: int|
                0 <= j < i ==> ((#[trigger] out@[j]).0@, out@[j].1@) == (v@[j].0@, v@[j].1@),
        decreases n - i,
    {
        out.push((v[i].0.clone(), v[i].1.clone()));
        i += 1;
    }
    proof {
        assert(pair_views(out@) =~= pair_views(v@));
    }
    out
}

impl Clone for StreamEntry {
    /// A clone stands for the same entry.
    fn clone(&self) -> (r: Self)
        ensures
            r@ == self@,
    {
        StreamEntry { id: self.id, fields: clone_pairs(&self.fields) }
    }
}

/// One ordered stream.
#[derive(Debug)]
pub struct Stream {
    entries: Vec<StreamEntry>,
}

pub open spec fn entry_views(es: Seq<StreamEntry>) -> Seq<EntryView> {
    Seq::new(es.len(), |i: int| es[i]@)
}

impl View for Stream {
    type V = Seq<EntryView>;

    closed spec fn view(&self) -> Seq<EntryView> {
        entry_views(self.entries@)
    }
}

/// The recorded ids grow strictly along the stream.
pub open spec fn ids_strictly_increasing(s: Seq<EntryView>) -> bool {
    forall|i: int, j: int| 0 <= i < j < s.len() ==> id_lt((#[trigger] s[i]).0, (#[trigger] s[j]).0)
}

/// Why an append was refused.
#[derive(PartialEq, Eq, Structural, Clone, Copy, Debug)]
pub enum XaddError {
    /// The id 0-0 was asked for explicitly.
    ZeroId,
    /// The id does not exceed the stream's last id (also returned in the
    /// unreachable case of a sequence number past the largest one).
    NotGreater,
}

/// The last id of a stream, if any.
pub open spec fn last_id_of(s: Seq<EntryView>) -> Option<StreamId> {
    if s.len() == 0 {
        None
    } else {
        Some(s.last().0)
    }
}

/// The id an append request resolves to against the stream's last id.
/// `wild` marks an open sequence part: it is taken as `seq0` unless the
/// last id has the same millisecond part, in which case it is one past
/// the last sequence number.  An explicit id must strictly exceed the
/// last id, and 0-0 is refused outright.
pub open spec fn resolve_id(last: Option<StreamId>, ms: u64, seq0: u64, wild: bool) -> Result<
    StreamId,
    XaddError,
> {
    if ms == 0 && seq0 == 0 && !wild {
        Err(XaddError::ZeroId)
    } else {
        match last {
            None => Ok(StreamId { ms, seq: seq0 }),
            Some(l) => {
                if l.ms > ms || (l.ms == ms && l.seq >= seq0 && !wild) {
                    Err(XaddError::NotGreater)
                } else if l.ms == ms && l.seq >= seq0 {
                    if l.seq == u64::MAX {
                        Err(XaddError::NotGreater)
                    } else {
                        Ok(StreamId { ms, seq: (l.seq + 1) as u64 })
                    }
                } else {
                    Ok(StreamId { ms, seq: seq0 })
                }
            },
        }
    }
}

/// The entries with ids between the two bounds, inclusive, in order.
pub open spec fn range_of(s: Seq<EntryView>, start: StreamId, end: StreamId) -> Seq<EntryView>
    decreases s.len(),
{
    if s.len() == 0 {
        Seq::empty()
    } else {
        let rest = range_of(s.drop_first(), start, end);
        if id_le(start, s[0].0) && id_le(s[0].0, end) {
            seq![s[0]] + rest
        } else {
            rest
        }
    }
}

/// The entries with ids strictly after the given id, in order.
pub open spec fn after_of(s: Seq<EntryView>, id: StreamId) -> Seq<EntryView>
    decreases s.len(),
{
    if s.len() == 0 {
        Seq::empty()
    } else {
        let rest = after_of(s.drop_first(), id);
        if id_lt(id, s[0].0) {
            seq![s[0]] + rest
        } else {
            rest
        }
    }
}

impl Stream {
    /// Ids grow strictly along the stream.
    pub open spec fn wf(&self) -> bool {
        ids_strictly_increasing(self@)
    }

    /// An empty stream.
    pub fn new() -> (r: Stream)
        ensures
            r.wf(),
            r@ == Seq::<EntryView>::empty(),
    {
        let r = Stream { entries: Vec::new() };
        proof {
            assert(r@ =~= Seq::<EntryView>::empty());
        }
        r
    }

    /// The last id, if the stream holds anything.
    pub fn last_id(&self) -> (r: Option<StreamId>)
        ensures
            r == last_id_of(self@),
    {
        let n = self.entries.len();
        if n == 0 {
            None
        } else {
            Some(self.entries[n - 1].id)
        }
    }

    /// Appends an entry under the resolved id; a request that does not
    /// resolve leaves the stream as it was.
    pub fn xadd(&mut self, ms: u64, seq0: u64, wild: bool, fields: Vec<(String, String)>) -> (r:
        Result<StreamId, XaddError>)
        requires
            old(self).wf(),
        ensures
            final(self).wf(),
            match r {
                Ok(id) => resolve_id(last_id_of(old(self)@), ms, seq0, wild) == Ok::<
                    StreamId,
                    XaddError,
                >(id) && final(self)@ == old(self)@.push((id, pair_views(fields@))),
                Err(e) => resolve_id(last_id_of(old(self)@), ms, seq0, wild) == Err::<
                    StreamId,
                    XaddError,
                >(e) && final(self)@ == old(self)@,
            },
    {
        let last = self.last_id();
        if ms == 0 && seq0 == 0 && !wild {
            return Err(XaddError::ZeroId);
        }
        let id = match last {
            None => StreamId { ms, seq: seq0 },
            Some(l) => {
                if l.ms > ms || (l.ms == ms && l.seq >= seq0 && !wild) {
                    return Err(XaddError::NotGreater);
                } else if l.ms == ms && l.seq >= seq0 {
                    if l.seq == u64::MAX {
                        return Err(XaddError::NotGreater);
                    }
                    StreamId { ms, seq: l.seq + 1 }
                } else {
                    StreamId { ms, seq: seq0 }
                }
            },
        };
        let ghost pre = self@;
        let e = StreamEntry { id, fields };
        let ghost ge = e;
        self.entries.push(e);
        proof {
            assert(self@ =~= pre.push(ge@));
            assert forall|i: int, j: int| 0 <= i < j < self@.len() implies id_lt(
                (#[trigger] self@[i]).0,
                (#[trigger] self@[j]).0,
            ) by {
                if j < self@.len() - 1 {
                    assert(self@[i] == pre[i]);
                    assert(self@[j] == pre[j]);
                } else {
                    assert(self@[j].0 == id);
                    assert(self@[i] == pre[i]);
                    if pre.len() > 0 {
                        let l = pre.last().0;
                        if i < pre.len() - 1 {
                            assert(id_lt(pre[i].0, l));
                        }
                        assert(id_lt(l, id));
                    }
                }
            }
        }
        Ok(id)
    }

    /// The entries between the two bounds, inclusive.
    pub fn range(&self, start: StreamId, end: StreamId) -> (r: Vec<StreamEntry>)
        ensures
            entry_views(r@) == range_of(self@, start, end),
    {
        let n = self.entries.len();
        let mut out: Vec<StreamEntry> = Vec::new();
        proof {
            assert(entry_views(out@) =~= Seq::<EntryView>::empty());
            assert(self@.skip(0) =~= self@);
            if range_of(self@, start, end).len() >= 0 {
                assert(Seq::<EntryView>::empty() + range_of(self@, start, end) =~= range_of(
                    self@,
                    start,
                    end,
                ));
            }
        }
        let mut i: usize = 0;
        while i < n
            invariant
                i <= n,
                n == self.entries@.len(),
                self@.len() == n,
                entry_views(out@) + range_of(self@.skip(i as int), start, end) == range_of(
                    self@,
                    start,
                    end,
                ),
            decreases n - i,
        {
            let e = &self.entries[i];
            proof {
                assert(self@.skip(i as int)[0] == self@[i as int]);
                assert(self@.skip(i as int).drop_first() =~= self@.skip(i + 1));
                assert(self@[i as int] == self.entries@[i as int]@);
            }
            if start.le(&e.id) && e.id.le(&end) {
                let c = e.clone();
                let ghost prev = out@;
                let ghost gc = c;
                out.push(c);
                proof {
                    assert(entry_views(out@) =~= entry_views(prev).push(self@[i as int]));
                    assert(entry_views(prev).push(self@[i as int]) + range_of(
                        self@.skip(i + 1),
                        start,
                        end,
                    ) =~= entry_views(prev) + (seq![self@[i as int]] + range_of(
                        self@.skip(i + 1),
                        start,
                        end,
                    )));
                }
            }
            i += 1;
        }
        proof {
            assert(self@.skip(n as int) =~= Seq::<EntryView>::empty());
            assert(entry_views(out@) + Seq::<EntryView>::empty() =~= entry_views(out@));
        }
        out
    }

    /// The entries strictly after the given id.
    pub fn range_after(&self, id: StreamId) -> (r: Vec<StreamEntry>)
        ensures
            entry_views(r@) == after_of(self@, id),
    {
        let n = self.entries.len();
        let mut out: Vec<StreamEntry> = Vec::new();
        proof {
            assert(entry_views(out@) =~= Seq::<EntryView>::empty());
            assert(self@.skip(0) =~= self@);
            if after_of(self@, id).len() >= 0 {
                assert(Seq::<EntryView>::empty() + after_of(self@, id) =~= after_of(self@, id));
            }
        }
        let mut i: usize = 0;
        while i < n
            invariant
                i <= n,
                n == self.entries@.len(),
                self@.len() == n,
                entry_views(out@) + after_of(self@.skip(i as int), id) == after_of(self@, id),
            decreases n - i,
        {
            let e = &self.entries[i];
            proof {
                assert(self@.skip(i as int)[0] == self@[i as int]);
                assert(self@.skip(i as int).drop_first() =~= self@.skip(i + 1));
                assert(self@[i as int] == self.entries@[i as int]@);
            }
            if id.lt(&e.id) {
                let c = e.clone();
                let ghost prev = out@;
                out.push(c);
                proof {
                    assert(entry_views(out@) =~= entry_views(prev).push(self@[i as int]));
                    assert(entry_views(prev).push(self@[i as int]) + after_of(
                        self@.skip(i + 1),
                        id,
                    ) =~= entry_views(prev) + (seq![self@[i as int]] + after_of(
                        self@.skip(i + 1),
                        id,
                    )));
                }
            }
            i += 1;
        }
        proof {
            assert(self@.skip(n as int) =~= Seq::<EntryView>::empty());
            assert(entry_views(out@) + Seq::<EntryView>::empty() =~= entry_views(out@));
        }
        out
    }
}

/// The streams of the server, keyed by name.
pub struct StreamSet {
    entries: Vec<(String, Stream)>,
}

impl View for StreamSet {
    type V = Map<Seq<char>, Seq<EntryView>>;

    /// The map the entry list stands for.
    closed spec fn view(&self) -> Map<Seq<char>, Seq<EntryView>> {
        Map::new(
            |k: Seq<char>|
                exists|i: int|
                    0 <= i < self.entries@.len() && (#[trigger] self.entries@[i]).0@ == k,
            |k: Seq<char>|
                {
                    let i = choose|i: int|
                        0 <= i < self.entries@.len() && (#[trigger] self.entries@[i]).0@ == k;
                    self.entries@[i].1@
                },
        )
    }
}

/// The stream a key names, or the empty stream where the key names none.
pub open spec fn stream_of(m: Map<Seq<char>, Seq<EntryView>>, k: Seq<char>) -> Seq<EntryView> {
    if m.contains_key(k) {
        m[k]
    } else {
        Seq::empty()
    }
}

impl StreamSet {
    /// Keys are pairwise distinct and every stream is ordered.
    pub closed spec fn wf(&self) -> bool {
        &&& forall|i: int, j: int|
            0 <= i < j < self.entries@.len() ==> (#[trigger] self.entries@[i]).0@ != (
            #[trigger] self.entries@[j]).0@
        &&& forall|i: int| 0 <= i < self.entries@.len() ==> (#[trigger] self.entries@[i]).1.wf()
    }

    /// Every stream in view is ordered.
    pub proof fn lemma_wf_streams(&self, k: Seq<char>)
        requires
            self.wf(),
            self@.contains_key(k),
        ensures
            ids_strictly_increasing(self@[k]),
    {
        let i = choose|i: int|
            0 <= i < self.entries@.len() && (#[trigger] self.entries@[i]).0@ == k;
        self.lemma_view_at(i);
    }

    /// An empty set of streams.
    pub fn new() -> (r: StreamSet)
        ensures
            r.wf(),
            r@ == Map::<Seq<char>, Seq<EntryView>>::empty(),
    {
        let r = StreamSet { entries: Vec::new() };
        proof {
            assert(r@ =~= Map::<Seq<char>, Seq<EntryView>>::empty());
        }
        r
    }

    /// The position of a key's stream, if the key names one.
    fn find_idx(&self, k: &str) -> (r: Option<usize>)
        ensures
            match r {
                Some(i) => i < self.entries@.len() && self.entries@[i as int].0@ == k@,
                None => forall|i: int|
                    0 <= i < self.entries@.len() ==> (#[trigger] self.entries@[i]).0@ != k@,
            },
    {
        let key = String::from_str(k);
        let n = self.entries.len();
        let mut i: usize = 0;
        while i < n
            invariant
                i <= n,
                n == self.entries@.len(),
                key@ == k@,
                forall|j: int| 0 <= j < i ==> (#[trigger] self.entries@[j]).0@ != k@,
            decreases n - i,
        {
            if self.entries[i].0 == key {
                return Some(i);
            }
            i += 1;
        }
        None
    }

    proof fn lemma_view_at(&self, i: int)
        requires
            self.wf(),
            0 <= i < self.entries@.len(),
        ensures
            self@.contains_key(self.entries@[i].0@),
            self@[self.entries@[i].0@] == self.entries@[i].1@,
            self.entries@[i].1.wf(),
    {
        let k = self.entries@[i].0@;
        assert(exists|j: int|
            0 <= j < self.entries@.len() && (#[trigger] self.entries@[j]).0@ == k);
        let j = choose|j: int|
            0 <= j < self.entries@.len() && (#[trigger] self.entries@[j]).0@ == k;
        assert(j == i);
    }

    /// Whether the key names a stream.
    pub fn contains(&self, k: &str) -> (r: bool)
        requires
            self.wf(),
        ensures
            r == self@.contains_key(k@),
    {
        match self.find_idx(k) {
            Some(i) => {
                proof {
                    self.lemma_view_at(i as int);
                }
                true
            },
            None => {
                proof {
                    if self@.contains_key(k@) {
                        let j = choose|j: int|
                            0 <= j < self.entries@.len() && (#[trigger] self.entries@[j]).0@ == k@;
                    }
                }
                false
            },
        }
    }

    /// Removes any stream the key names.
    pub fn remove(&mut self, k: &str)
        requires
            old(self).wf(),
        ensures
            final(self).wf(),
            final(self)@ == old(self)@.remove(k@),
    {
        match self.find_idx(k) {
            Some(i) => {
                let ghost pre = *self;
                self.entries.remove(i);
                proof {
                    assert forall|a: int, b: int|
                        0 <= a < b < self.entries@.len() implies (#[trigger] self.entries@[a]).0@
                        != (#[trigger] self.entries@[b]).0@ by {
                        let a0 = if a < i { a } else { a + 1 };
                        let b0 = if b < i { b } else { b + 1 };
                        assert(self.entries@[a] == pre.entries@[a0]);
                        assert(self.entries@[b] == pre.entries@[b0]);
                    }
                    assert forall|a: int| 0 <= a < self.entries@.len() implies (
                    #[trigger] self.entries@[a]).1.wf() by {
                        let a0 = if a < i { a } else { a + 1 };
                        assert(self.entries@[a] == pre.entries@[a0]);
                    }
                    assert forall|x: Seq<char>| #[trigger]
                        self@.contains_key(x) == pre@.remove(k@).contains_key(x) && (
                    self@.contains_key(x) ==> self@[x] == pre@.remove(k@)[x]) by {
                        if x == k@ {
                            if self@.contains_key(x) {
                                let j = choose|j: int|
                                    0 <= j < self.entries@.len() && (#[trigger] self.entries@[j]).0@
                                        == x;
                                let j0 = if j < i { j } else { j + 1 };
                                assert(pre.entries@[j0].0@ == x);
                                assert(pre.entries@[i as int].0@ == x);
                                assert(false);
                            }
                        } else {
                            if pre@.contains_key(x) {
                                let j0 = choose|j: int|
                                    0 <= j < pre.entries@.len() && (#[trigger] pre.entries@[j]).0@
                                        == x;
                                let j = if j0 < i { j0 } else { j0 - 1 };
                                assert(j0 != i);
                                assert(self.entries@[j] == pre.entries@[j0]);
                                assert(self@.contains_key(x));
                                self.lemma_view_at(j);
                                pre.lemma_view_at(j0);
                            }
                            if self@.contains_key(x) {
                                let j = choose|j: int|
                                    0 <= j < self.entries@.len() && (#[trigger] self.entries@[j]).0@
                                        == x;
                                let j0 = if j < i { j } else { j + 1 };
                                assert(pre.entries@[j0].0@ == x);
                                assert(pre@.contains_key(x));
                            }
                        }
                    }
                    assert(self@ =~= pre@.remove(k@));
                }
            },
            None => {
                proof {
                    assert forall|x: Seq<char>| #[trigger]
                        self@.contains_key(x) ==> x != k@ by {
                        if self@.contains_key(x) {
                            let j = choose|j: int|
                                0 <= j < self.entries@.len() && (#[trigger] self.entries@[j]).0@
                                    == x;
                        }
                    }
                    assert(self@ =~= old(self)@.remove(k@));
                }
            },
        }
    }

    /// Puts a stream under a key that names none yet.
    fn push_stream(&mut self, k: String, st: Stream)
        requires
            old(self).wf(),
            st.wf(),
            !old(self)@.contains_key(k@),
        ensures
            final(self).wf(),
            final(self)@ == old(self)@.insert(k@, st@),
    {
        let ghost mid = *self;
        let ghost gk = k@;
        let ghost gv = st@;
        self.entries.push((k, st));
        proof {
            assert forall|a: int, b: int|
                0 <= a < b < self.entries@.len() implies (#[trigger] self.entries@[a]).0@ != (
            #[trigger] self.entries@[b]).0@ by {
                if b < self.entries@.len() - 1 {
                    assert(self.entries@[a] == mid.entries@[a]);
                    assert(self.entries@[b] == mid.entries@[b]);
                } else {
                    assert(self.entries@[b].0@ == gk);
                    assert(self.entries@[a] == mid.entries@[a]);
                    if mid.entries@[a].0@ == gk {
                        mid.lemma_view_at(a);
                        assert(false);
                    }
                }
            }
            assert forall|a: int| 0 <= a < self.entries@.len() implies (
            #[trigger] self.entries@[a]).1.wf() by {
                if a < self.entries@.len() - 1 {
                    assert(self.entries@[a] == mid.entries@[a]);
                    mid.lemma_view_at(a);
                }
            }
            let n = self.entries@.len() - 1;
            assert forall|x: Seq<char>| #[trigger]
                self@.contains_key(x) == mid@.insert(gk, gv).contains_key(x) && (
            self@.contains_key(x) ==> self@[x] == mid@.insert(gk, gv)[x]) by {
                if x == gk {
                    assert(self.entries@[n].0@ == x);
                    self.lemma_view_at(n);
                } else {
                    if mid@.contains_key(x) {
                        let j = choose|j: int|
                            0 <= j < mid.entries@.len() && (#[trigger] mid.entries@[j]).0@ == x;
                        assert(self.entries@[j] == mid.entries@[j]);
                        self.lemma_view_at(j);
                        mid.lemma_view_at(j);
                    }
                    if self@.contains_key(x) {
                        let j = choose|j: int|
                            0 <= j < self.entries@.len() && (#[trigger] self.entries@[j]).0@ == x;
                        assert(j != n);
                        assert(mid.entries@[j] == self.entries@[j]);
                        assert(mid@.contains_key(x));
                    }
                }
            }
            assert(self@ =~= mid@.insert(gk, gv));
        }
    }

    /// Appends to the stream the key names, creating it first if the key
    /// names none.  A request that does not resolve changes nothing.
    pub fn xadd(&mut self, k: &str, ms: u64, seq0: u64, wild: bool, fields: Vec<(String, String)>)
        -> (r: Result<StreamId, XaddError>)
        requires
            old(self).wf(),
        ensures
            final(self).wf(),
            match r {
                Ok(id) => resolve_id(last_id_of(stream_of(old(self)@, k@)), ms, seq0, wild) == Ok::<
                    StreamId,
                    XaddError,
                >(id) && final(self)@ == old(self)@.insert(
                    k@,
                    stream_of(old(self)@, k@).push((id, pair_views(fields@))),
                ),
                Err(e) => resolve_id(last_id_of(stream_of(old(self)@, k@)), ms, seq0, wild) == Err::<
                    StreamId,
                    XaddError,
                >(e) && final(self)@ == old(self)@,
            },
    {
        let ghost pre = *self;
        match self.find_idx(k) {
            Some(i) => {
                proof {
                    self.lemma_view_at(i as int);
                }
                let (key, mut st) = self.entries.remove(i);
                proof {
                    assert(key@ == k@);
                    assert(pre.entries@.remove(i as int) =~= self.entries@);
                }
                let ghost mid = *self;
                proof {
                    Self::lemma_remove_view(pre, *self, i as int, k@);
                }
                let res = st.xadd(ms, seq0, wild, fields);
                match res {
                    Ok(id) => {
                        proof {
                            if self@.contains_key(k@) {
                                let j = choose|j: int|
                                    0 <= j < self.entries@.len() && (#[trigger] self.entries@[j]).0@
                                        == k@;
                                let j0 = if j < i { j } else { j + 1 };
                                assert(pre.entries@[j0].0@ == k@);
                                assert(pre.entries@[i as int].0@ == k@);
                                assert(false);
                            }
                        }
                        self.push_stream(key, st);
                        proof {
                            assert(self@ =~= pre@.insert(
                                k@,
                                stream_of(pre@, k@).push((id, pair_views(fields@))),
                            ));
                        }
                        Ok(id)
                    },
                    Err(e) => {
                        proof {
                            if self@.contains_key(k@) {
                                let j = choose|j: int|
                                    0 <= j < self.entries@.len() && (#[trigger] self.entries@[j]).0@
                                        == k@;
                                let j0 = if j < i { j } else { j + 1 };
                                assert(pre.entries@[j0].0@ == k@);
                                assert(pre.entries@[i as int].0@ == k@);
                                assert(false);
                            }
                        }
                        self.push_stream(key, st);
                        proof {
                            assert(self@ =~= pre@);
                        }
                        Err(e)
                    },
                }
            },
            None => {
                proof {
                    if self@.contains_key(k@) {
                        let j = choose|j: int|
                            0 <= j < self.entries@.len() && (#[trigger] self.entries@[j]).0@ == k@;
                    }
                    assert(!self@.contains_key(k@));
                    assert(stream_of(pre@, k@) =~= Seq::<EntryView>::empty());
                }
                let mut st = Stream::new();
                let res = st.xadd(ms, seq0, wild, fields);
                match res {
                    Ok(id) => {
                        let key = String::from_str(k);
                        self.push_stream(key, st);
                        Ok(id)
                    },
                    Err(e) => {
                        proof {
                            assert(self@ =~= pre@);
                        }
                        Err(e)
                    },
                }
            },
        }
    }

    /// Removing an entry takes its key out of the view.
    proof fn lemma_remove_view(pre: StreamSet, post: StreamSet, i: int, k: Seq<char>)
        requires
            pre.wf(),
            0 <= i < pre.entries@.len(),
            pre.entries@[i].0@ == k,
            post.entries@ == pre.entries@.remove(i),
        ensures
            post.wf(),
            post@ == pre@.remove(k),
    {
        assert forall|a: int, b: int|
            0 <= a < b < post.entries@.len() implies (#[trigger] post.entries@[a]).0@ != (
        #[trigger] post.entries@[b]).0@ by {
            let a0 = if a < i { a } else { a + 1 };
            let b0 = if b < i { b } else { b + 1 };
            assert(post.entries@[a] == pre.entries@[a0]);
            assert(post.entries@[b] == pre.entries@[b0]);
        }
        assert forall|a: int| 0 <= a < post.entries@.len() implies (
        #[trigger] post.entries@[a]).1.wf() by {
            let a0 = if a < i { a } else { a + 1 };
            assert(post.entries@[a] == pre.entries@[a0]);
            pre.lemma_view_at(a0);
        }
        assert forall|x: Seq<char>| #[trigger]
            post@.contains_key(x) == pre@.remove(k).contains_key(x) && (post@.contains_key(x)
                ==> post@[x] == pre@.remove(k)[x]) by {
            if x == k {
                if post@.contains_key(x) {
                    let j = choose|j: int|
                        0 <= j < post.entries@.len() && (#[trigger] post.entries@[j]).0@ == x;
                    let j0 = if j < i { j } else { j + 1 };
                    assert(pre.entries@[j0].0@ == x);
                    assert(pre.entries@[i].0@ == x);
                    assert(false);
                }
            } else {
                if pre@.contains_key(x) {
                    let j0 = choose|j: int|
                        0 <= j < pre.entries@.len() && (#[trigger] pre.entries@[j]).0@ == x;
                    let j = if j0 < i { j0 } else { j0 - 1 };
                    assert(j0 != i);
                    assert(post.entries@[j] == pre.entries@[j0]);
                    assert(post@.contains_key(x));
                    post.lemma_view_at(j);
                    pre.lemma_view_at(j0);
                }
                if post@.contains_key(x) {
                    let j = choose|j: int|
                        0 <= j < post.entries@.len() && (#[trigger] post.entries@[j]).0@ == x;
                    let j0 = if j < i { j } else { j + 1 };
                    assert(pre.entries@[j0].0@ == x);
                    assert(pre@.contains_key(x));
                }
            }
        }
        assert(post@ =~= pre@.remove(k));
    }


    /// The last id of the stream a key names; a key naming none has no
    /// last id.
    pub fn last_id_for(&self, k: &str) -> (r: Option<StreamId>)
        requires
            self.wf(),
        ensures
            r == last_id_of(stream_of(self@, k@)),
    {
        match self.find_idx(k) {
            Some(i) => {
                proof {
                    self.lemma_view_at(i as int);
                }
                self.entries[i].1.last_id()
            },
            None => {
                proof {
                    if self@.contains_key(k@) {
                        let j = choose|j: int|
                            0 <= j < self.entries@.len() && (#[trigger] self.entries@[j]).0@ == k@;
                    }
                    assert(stream_of(self@, k@) =~= Seq::<EntryView>::empty());
                }
                None
            },
        }
    }

    /// The entries of a key's stream between two bounds, or nothing where
    /// the key names no stream.
    pub fn range(&self, k: &str, start: StreamId, end: StreamId) -> (r: Option<Vec<StreamEntry>>)
        requires
            self.wf(),
        ensures
            match r {
                Some(v) => self@.contains_key(k@) && entry_views(v@) == range_of(
                    self@[k@],
                    start,
                    end,
                ),
                None => !self@.contains_key(k@),
            },
    {
        match self.find_idx(k) {
            Some(i) => {
                proof {
                    self.lemma_view_at(i as int);
                }
                Some(self.entries[i].1.range(start, end))
            },
            None => {
                proof {
                    if self@.contains_key(k@) {
                        let j = choose|j: int|
                            0 <= j < self.entries@.len() && (#[trigger] self.entries@[j]).0@ == k@;
                    }
                }
                None
            },
        }
    }

    /// The entries of a key's stream strictly after an id, or nothing
    /// where the key names no stream.
    pub fn range_after(&self, k: &str, id: StreamId) -> (r: Option<Vec<StreamEntry>>)
        requires
            self.wf(),
        ensures
            match r {
                Some(v) => self@.contains_key(k@) && entry_views(v@) == after_of(self@[k@], id),
                None => !self@.contains_key(k@),
            },
    {
        match self.find_idx(k) {
            Some(i) => {
                proof {
                    self.lemma_view_at(i as int);
                }
                Some(self.entries[i].1.range_after(id))
            },
            None => {
                proof {
                    if self@.contains_key(k@) {
                        let j = choose|j: int|
                            0 <= j < self.entries@.len() && (#[trigger] self.entries@[j]).0@ == k@;
                    }
                }
                None
            },
        }
    }
}

} // verus!
