//! The per-replica event log: the event table, the append log that records the
//! order in which events first became visible here, and the version vector.
use vstd::prelude::*;
use crate::event::{id_key, lemma_id_key_injective, Id, Transaction};
use crate::storage::{Simulated, Storage};

verus! {

/// What an event log holds, as mathematics.
pub struct LogModel {
    /// Event identifier (16 big-endian bytes) to value.
    pub events: Map<Seq<u8>, Seq<u8>>,
    /// Identifiers in the order in which they first became visible here.
    pub log: Seq<Seq<u8>>,
    /// Peer address to the logical clock last reported by that peer.
    pub clocks: Map<Seq<u8>, nat>,
}

/// An event as the log sees it: identifier key and value.
pub type Entry = (Seq<u8>, Seq<u8>);

impl LogModel {
    /// The append log and the event table describe the same events, each once,
    /// and every key is an identifier.
    pub open spec fn wf(self) -> bool {
        &&& self.events.dom().finite()
        &&& self.log.len() == self.events.len()
        &&& self.log.no_duplicates()
        &&& forall|i: int| 0 <= i < self.log.len() ==> self.events.contains_key(#[trigger] self.log[i])
        &&& forall|k: Seq<u8>| #[trigger] self.events.contains_key(k) ==> self.log.contains(k)
        &&& forall|i: int| 0 <= i < self.log.len() ==> (#[trigger] self.log[i]).len() == 16
    }

    /// The version-vector entry of `addr`; an absent entry is 0.
    pub open spec fn clock(self, addr: Seq<u8>) -> nat {
        if self.clocks.contains_key(addr) {
            self.clocks[addr]
        } else {
            0
        }
    }

    /// Every version-vector entry is at most the length of the append log.
    pub open spec fn clocks_bounded(self) -> bool {
        forall|a: Seq<u8>| #[trigger] self.clocks.contains_key(a) ==> self.clocks[a] <= self.log.len()
    }

    /// The events from position `s` of the append log on, in append order.
    pub open spec fn since(self, s: int) -> Seq<Entry> {
        self.log.subrange(s, self.log.len() as int).map_values(|k: Seq<u8>| (k, self.events[k]))
    }
}

/// Absorbs `evs` in order: an event whose identifier is new is stored and
/// appended; one already present changes nothing.
pub open spec fn absorb(m: LogModel, evs: Seq<Entry>) -> LogModel
    decreases evs.len(),
{
    if evs.len() == 0 {
        m
    } else {
        let p = absorb(m, evs.drop_last());
        let e = evs.last();
        if p.events.contains_key(e.0) {
            p
        } else {
            LogModel { events: p.events.insert(e.0, e.1), log: p.log.push(e.0), clocks: p.clocks }
        }
    }
}

/// Absorbing events whose values agree with a map `n` keeps a log consistent,
/// extends its append log with keys taken from the events, keeps every value it
/// had, and takes each new key's value from `n`.
pub proof fn lemma_absorb(m: LogModel, evs: Seq<Entry>, n: Map<Seq<u8>, Seq<u8>>)
    requires
        m.wf(),
        forall|j: int|
            0 <= j < evs.len() ==> (#[trigger] evs[j]).0.len() == 16 && n.contains_key(evs[j].0)
                && n[evs[j].0] == evs[j].1,
    ensures
        absorb(m, evs).wf(),
        absorb(m, evs).clocks == m.clocks,
        absorb(m, evs).log.len() >= m.log.len(),
        absorb(m, evs).log.subrange(0, m.log.len() as int) == m.log,
        forall|i: int|
            m.log.len() <= i < absorb(m, evs).log.len() ==> n.contains_key(
                #[trigger] absorb(m, evs).log[i],
            ),
        forall|k: Seq<u8>| #[trigger]
            absorb(m, evs).events.contains_key(k) <==> (m.events.contains_key(k) || exists|j: int|
                0 <= j < evs.len() && evs[j].0 == k),
        forall|k: Seq<u8>|
            m.events.contains_key(k) ==> #[trigger] absorb(m, evs).events[k] == m.events[k],
        forall|k: Seq<u8>|
            absorb(m, evs).events.contains_key(k) && !m.events.contains_key(k) ==> #[trigger] absorb(
                m,
                evs,
            ).events[k] == n[k],
    decreases evs.len(),
{
    if evs.len() > 0 {
        let t = evs.drop_last();
        let e = evs.last();
        assert forall|j: int| 0 <= j < t.len() implies (#[trigger] t[j]).0.len() == 16
            && n.contains_key(t[j].0) && n[t[j].0] == t[j].1 by {
            assert(t[j] == evs[j]);
        }
        lemma_absorb(m, t, n);
        let p = absorb(m, t);
        let r = absorb(m, evs);
        assert(evs[evs.len() - 1] == e);
        assert forall|k: Seq<u8>| #[trigger]
            r.events.contains_key(k) <==> (m.events.contains_key(k) || exists|j: int|
                0 <= j < evs.len() && evs[j].0 == k) by {
            if exists|j: int| 0 <= j < evs.len() && evs[j].0 == k {
                let j = choose|j: int| 0 <= j < evs.len() && evs[j].0 == k;
                if j < t.len() {
                    assert(t[j].0 == k);
                }
            }
            if p.events.contains_key(k) && !m.events.contains_key(k) {
                let j = choose|j: int| 0 <= j < t.len() && t[j].0 == k;
                assert(evs[j].0 == k);
            }
        }
        if !p.events.contains_key(e.0) {
            assert(!p.log.contains(e.0));
            assert forall|k: Seq<u8>| #[trigger] r.events.contains_key(k) implies r.log.contains(k) by {
                if k != e.0 {
                    let j = choose|j: int| 0 <= j < p.log.len() && p.log[j] == k;
                    assert(r.log[j] == k);
                } else {
                    assert(r.log[r.log.len() - 1] == k);
                }
            }
            assert(r.log.subrange(0, m.log.len() as int) =~= p.log.subrange(0, m.log.len() as int));
            assert forall|i: int| m.log.len() <= i < r.log.len() implies n.contains_key(
                #[trigger] r.log[i],
            ) by {
                if i < p.log.len() {
                    assert(r.log[i] == p.log[i]);
                }
            }
        }
    }
}

/// Records the clock that a peer reported, if one came with the events.
pub open spec fn stamp(m: LogModel, origin: Option<(Seq<u8>, nat)>) -> LogModel {
    match origin {
        Some(o) => LogModel { clocks: m.clocks.insert(o.0, o.1), ..m },
        None => m,
    }
}

pub open spec fn entry_view(e: (Id, Vec<u8>)) -> Entry {
    (id_key(e.0), e.1@)
}

pub open spec fn entries(s: Seq<(Id, Vec<u8>)>) -> Seq<Entry> {
    s.map_values(|e: (Id, Vec<u8>)| entry_view(e))
}

pub open spec fn origin_view(from: Option<(Vec<u8>, Transaction<usize>)>) -> Option<(Seq<u8>, nat)> {
    match from {
        Some(o) => Some((o.0@, o.1.0 as nat)),
        None => None,
    }
}

/// Identifiers paired with values, position by position.
pub open spec fn paired(ids: Seq<Id>, vals: Seq<Vec<u8>>) -> Seq<Entry> {
    Seq::new(ids.len(), |i: int| (id_key(ids[i]), vals[i]@))
}

/// Why a log operation was refused.
#[derive(Clone, Copy, Debug, PartialEq, Eq, Structural)]
pub enum LogError {
    /// No event has the identifier asked for.
    NotFound,
    /// The offset lies beyond the end of the append log.
    BadOffset,
}

/// A report on a log: its backend and how many events it holds.
#[derive(Clone, Debug)]
pub struct Info {
    pub storage_engine: String,
    pub n_events: usize,
}

/// An event log kept in a storage backend.
pub struct Database<S: Storage> {
    storage: S,
}

impl<S: Storage> View for Database<S> {
    type V = LogModel;

    closed spec fn view(&self) -> LogModel {
        LogModel {
            events: self.storage.events(),
            log: self.storage.changes(),
            clocks: self.storage.clocks().map_values(|t: usize| t as nat),
        }
    }
}

pub open spec fn model_of<S: Storage>(s: S) -> LogModel {
    LogModel {
        events: s.events(),
        log: s.changes(),
        clocks: s.clocks().map_values(|t: usize| t as nat),
    }
}

/// In a consistent log the append log has as many entries as there are events,
/// each entry is the identifier of an event, and no identifier appears twice.
pub proof fn lemma_log_matches_events<S: Storage>(db: &Database<S>)
    requires
        db.wf(),
    ensures
        db@.log.len() == db@.events.len(),
        forall|i: int| 0 <= i < db@.log.len() ==> db@.events.contains_key(#[trigger] db@.log[i]),
        db@.log.no_duplicates(),
{
}

impl Database<Simulated> {
    /// An empty log in memory.
    pub fn new() -> (r: Database<Simulated>)
        ensures
            r.wf(),
            r@.events == Map::<Seq<u8>, Seq<u8>>::empty(),
            r@.log == Seq::<Seq<u8>>::empty(),
            r@.clocks == Map::<Seq<u8>, nat>::empty(),
    {
        let storage = Simulated::new();
        proof {
            assert(storage.events().dom() =~= Set::empty());
            assert(storage.clocks().map_values(|t: usize| t as nat) =~= Map::<Seq<u8>, nat>::empty());
        }
        Database { storage }
    }
}

impl<S: Storage> Database<S> {
    pub closed spec fn backend_ok(&self) -> bool {
        self.storage.wf()
    }

    pub open spec fn wf(&self) -> bool {
        self.backend_ok() && self@.wf()
    }

    /// A log over a backend whose tables are already consistent (an empty one,
    /// or one that a log wrote before).
    pub fn with_storage(storage: S) -> (r: Self)
        requires
            storage.wf(),
            model_of(storage).wf(),
        ensures
            r.wf(),
            r@ == model_of(storage),
    {
        Database { storage }
    }

    /// The version-vector entry of `addr`, 0 when there is none.
    pub fn transaction_logical_clock(&self, addr: &[u8]) -> (r: Transaction<usize>)
        requires
            self.wf(),
        ensures
            r.0 == self@.clock(addr@),
    {
        match self.storage.read_vector_clock(addr) {
            Some(t) => Transaction(t),
            None => Transaction(0),
        }
    }

    /// The length of the append log: the next append position.
    pub fn high_water(&self) -> (r: Transaction<usize>)
        requires
            self.wf(),
        ensures
            r.0 == self@.log.len(),
    {
        Transaction(self.storage.n_events())
    }

    /// Every event from position `since` of the append log on, in append
    /// order, with the new high-water mark.
    pub fn read_events(&self, since: Transaction<usize>) -> (r: Result<
        (Vec<(Id, Vec<u8>)>, Transaction<usize>),
        LogError,
    >)
        requires
            self.wf(),
        ensures
            r.is_err() <==> since.0 > self@.log.len(),
            r.is_err() ==> r == Err::<(Vec<(Id, Vec<u8>)>, Transaction<usize>), LogError>(
                LogError::BadOffset,
            ),
            r.is_ok() ==> entries(r.unwrap().0@) == self@.since(since.0 as int),
            r.is_ok() ==> r.unwrap().1.0 == self@.log.len(),
            since.0 == 0 && r.is_ok() ==> r.unwrap().0@.len() == self@.events.len(),
    {
        let hw = self.storage.n_events();
        if since.0 > hw {
            return Err(LogError::BadOffset);
        }
        let keys = self.storage.keys_added_since(since.0);
        let mut out: Vec<(Id, Vec<u8>)> = Vec::new();
        let mut i: usize = 0;
        while i < keys.len()
            invariant
                self.wf(),
                since.0 <= self@.log.len(),
                keys@.len() == self@.log.len() - since.0,
                forall|j: int| 0 <= j < keys@.len() ==> (#[trigger] keys@[j])@ == self@.log[since.0 + j],
                i <= keys@.len(),
                entries(out@) == self@.since(since.0 as int).subrange(0, i as int),
            decreases keys@.len() - i,
        {
            let key = keys[i].as_slice();
            assert(key@ == self@.log[since.0 + i]);
            let id = Id::read_from(key, 0);
            assert(key@.subrange(0, 16) =~= key@);
            let value = self.storage.read_event(key);
            let value = match value {
                Some(v) => v,
                None => {
                    assert(false);
                    Vec::new()
                },
            };
            let ghost before = out@;
            out.push((id, value));
            assert(entries(out@) =~= self@.since(since.0 as int).subrange(0, i + 1)) by {
                assert(entries(out@) =~= entries(before).push(entry_view((id, value))));
            }
            i = i + 1;
        }
        assert(self@.since(since.0 as int).subrange(0, i as int) =~= self@.since(since.0 as int));
        Ok((out, Transaction(hw)))
    }

    /// Absorbs `new_events` in order (each identifier not yet present is stored
    /// and appended), then records the clock that came with them, if any.
    pub fn write_events(
        &mut self,
        from: Option<(Vec<u8>, Transaction<usize>)>,
        new_events: &[(Id, Vec<u8>)],
    )
        requires
            old(self).wf(),
        ensures
            final(self).wf(),
            final(self)@ == stamp(absorb(old(self)@, entries(new_events@)), origin_view(from)),
            old(self)@.clocks_bounded() && (match from {
                Some(o) => o.1.0 <= final(self)@.log.len(),
                None => true,
            }) ==> final(self)@.clocks_bounded(),
    {
        let ghost start = self@;
        let mut i: usize = 0;
        while i < new_events.len()
            invariant
                self.wf(),
                i <= new_events@.len(),
                self@ == absorb(start, entries(new_events@.subrange(0, i as int))),
                start.log.len() <= self@.log.len(),
                self@.clocks == start.clocks,
            decreases new_events@.len() - i,
        {
            let ghost prev = self@;
            let key = new_events[i].0.to_bytes();
            proof {
                lemma_id_key_injective(new_events@[i as int].0, new_events@[i as int].0);
                assert(entries(new_events@.subrange(0, i + 1)).drop_last() =~= entries(
                    new_events@.subrange(0, i as int),
                ));
                assert(entries(new_events@.subrange(0, i + 1)).last() == entry_view(
                    new_events@[i as int],
                ));
            }
            let present = self.storage.read_event(key.as_slice());
            if present.is_none() {
                self.storage.write_event(key.as_slice(), new_events[i].1.as_slice());
                self.storage.write_change(key.as_slice());
                proof {
                    assert(!prev.log.contains(key@));
                    assert forall|k: Seq<u8>| #[trigger] self@.events.contains_key(k) implies self@.log.contains(k) by {
                        if k != key@ {
                            assert(prev.events.contains_key(k));
                            let j = choose|j: int| 0 <= j < prev.log.len() && prev.log[j] == k;
                            assert(self@.log[j] == k);
                        } else {
                            assert(self@.log[self@.log.len() - 1] == k);
                        }
                    }
                    assert(self@.log.no_duplicates());
                }
            }
            assert(self@ == absorb(start, entries(new_events@.subrange(0, i + 1))));
            i = i + 1;
        }
        assert(new_events@.subrange(0, i as int) =~= new_events@);
        let ghost absorbed = self@;
        match &from {
            Some(o) => {
                self.storage.update_vector_clock(o.0.as_slice(), o.1.0);
                assert(self@.clocks =~= absorbed.clocks.insert(o.0@, o.1.0 as nat));
            },
            None => {},
        }
        proof {
            if start.clocks_bounded() && (match from {
                Some(o) => o.1.0 <= self@.log.len(),
                None => true,
            }) {
                assert forall|a: Seq<u8>| #[trigger] self@.clocks.contains_key(a) implies self@.clocks[a]
                    <= self@.log.len() by {
                    if from.is_none() || a != from.unwrap().0@ {
                        assert(start.clocks.contains_key(a));
                    }
                }
            }
        }
    }

    /// The value stored under `id`.
    pub fn get(&self, id: Id) -> (r: Result<Vec<u8>, LogError>)
        requires
            self.wf(),
        ensures
            r.is_ok() <==> self@.events.contains_key(id_key(id)),
            r.is_ok() ==> r.unwrap()@ == self@.events[id_key(id)],
            r.is_err() ==> r == Err::<Vec<u8>, LogError>(LogError::NotFound),
    {
        let key = id.to_bytes();
        match self.storage.read_event(key.as_slice()) {
            Some(v) => Ok(v),
            None => Err(LogError::NotFound),
        }
    }

    /// Stores each value under a freshly minted identifier, in order, and
    /// returns the identifiers.
    pub fn add_local(&mut self, values: &[Vec<u8>]) -> (r: Vec<Id>)
        requires
            old(self).wf(),
        ensures
            final(self).wf(),
            r@.len() == values@.len(),
            final(self)@ == absorb(old(self)@, paired(r@, values@)),
    {
        let mut ids: Vec<Id> = Vec::new();
        let mut pairs: Vec<(Id, Vec<u8>)> = Vec::new();
        let mut i: usize = 0;
        while i < values.len()
            invariant
                i <= values@.len(),
                ids@.len() == i,
                entries(pairs@) == paired(ids@, values@.subrange(0, i as int)),
            decreases values@.len() - i,
        {
            let id = Id::generate();
            let ghost before = pairs@;
            ids.push(id);
            pairs.push((id, crate::storage::copy_bytes(values[i].as_slice())));
            assert(entries(pairs@) =~= paired(ids@, values@.subrange(0, i + 1))) by {
                assert(entries(pairs@) =~= entries(before).push(entry_view(pairs@[i as int])));
            }
            i = i + 1;
        }
        assert(values@.subrange(0, i as int) =~= values@);
        self.write_events(None, pairs.as_slice());
        ids
    }

    /// Whether the two logs hold the same events; their append orders and
    /// version vectors may differ.
    pub fn event_equivalent<T: Storage>(&self, other: &Database<T>) -> (r: bool)
        requires
            self.wf(),
            other.wf(),
        ensures
            r == (self@.events == other@.events),
    {
        if self.storage.n_events() != other.storage.n_events() {
            return false;
        }
        let keys = self.storage.keys_added_since(0);
        let mut i: usize = 0;
        while i < keys.len()
            invariant
                self.wf(),
                other.wf(),
                self@.events.len() == other@.events.len(),
                keys@.len() == self@.log.len(),
                forall|j: int| 0 <= j < keys@.len() ==> (#[trigger] keys@[j])@ == self@.log[j],
                i <= keys@.len(),
                forall|j: int|
                    0 <= j < i ==> other@.events.contains_key(#[trigger] self@.log[j])
                        && other@.events[self@.log[j]] == self@.events[self@.log[j]],
            decreases keys@.len() - i,
        {
            let key = keys[i].as_slice();
            assert(key@ == self@.log[i as int]);
            let mine = match self.storage.read_event(key) {
                Some(v) => v,
                None => {
                    assert(false);
                    return false;
                },
            };
            match other.storage.read_event(key) {
                Some(theirs) => {
                    if !crate::storage::same_bytes(theirs.as_slice(), mine.as_slice()) {
                        return false;
                    }
                },
                None => {
                    return false;
                },
            }
            i = i + 1;
        }
        proof {
            let a = self@.events;
            let b = other@.events;
            assert forall|k: Seq<u8>| #[trigger] a.contains_key(k) implies b.contains_key(k) && b[k]
                == a[k] by {
                let j = choose|j: int| 0 <= j < self@.log.len() && self@.log[j] == k;
            }
            vstd::set_lib::lemma_subset_equality(a.dom(), b.dom());
            assert(a =~= b);
        }
        true
    }

    /// The backend's name and the number of events.
    pub fn info(&self) -> (r: Info)
        requires
            self.wf(),
        ensures
            r.n_events == self@.events.len(),
    {
        Info { storage_engine: self.storage.name(), n_events: self.storage.n_events() }
    }
}

} // verus!
