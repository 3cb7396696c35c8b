//! The storage backend under an event log: an ordered key/value store that
//! knows only bytes, with three tables (events, append log, clocks).
use vstd::prelude::*;

verus! {

/// What a backend offers to the event log above it. A backend keeps what it
/// is told; the log keeps the tables consistent with each other.
pub trait Storage: Sized {
    /// The event table: identifier bytes to value bytes.
    spec fn events(&self) -> Map<Seq<u8>, Seq<u8>>;

    /// The append log, oldest first.
    spec fn changes(&self) -> Seq<Seq<u8>>;

    /// The clock table: address bytes to a logical clock.
    spec fn clocks(&self) -> Map<Seq<u8>, usize>;

    /// What the backend needs of its own representation.
    spec fn wf(&self) -> bool;

    /// A short name of the backend, for reports.
    fn name(&self) -> String;

    fn n_events(&self) -> (r: usize)
        requires
            self.wf(),
            self.events().dom().finite(),
        ensures
            r == self.events().len(),
    ;

    /// Stores `event` under `key`, unless `key` is present already.
    fn write_event(&mut self, key: &[u8], event: &[u8])
        requires
            old(self).wf(),
        ensures
            final(self).wf(),
            final(self).events() == (if old(self).events().contains_key(key@) {
                old(self).events()
            } else {
                old(self).events().insert(key@, event@)
            }),
            final(self).changes() == old(self).changes(),
            final(self).clocks() == old(self).clocks(),
    ;

    /// Appends `key` to the append log.
    fn write_change(&mut self, key: &[u8])
        requires
            old(self).wf(),
        ensures
            final(self).wf(),
            final(self).changes() == old(self).changes().push(key@),
            final(self).events() == old(self).events(),
            final(self).clocks() == old(self).clocks(),
    ;

    fn read_event(&self, key: &[u8]) -> (r: Option<Vec<u8>>)
        requires
            self.wf(),
        ensures
            r.is_some() == self.events().contains_key(key@),
            r.is_some() ==> r.unwrap()@ == self.events()[key@],
    ;

    /// Sets the clock of `id`, present or not.
    fn update_vector_clock(&mut self, id: &[u8], logical_time: usize)
        requires
            old(self).wf(),
        ensures
            final(self).wf(),
            final(self).clocks() == old(self).clocks().insert(id@, logical_time),
            final(self).events() == old(self).events(),
            final(self).changes() == old(self).changes(),
    ;

    fn read_vector_clock(&self, id: &[u8]) -> (r: Option<usize>)
        requires
            self.wf(),
        ensures
            r.is_some() == self.clocks().contains_key(id@),
            r.is_some() ==> r.unwrap() == self.clocks()[id@],
    ;

    /// The keys of the append log from position `logical_time` on.
    fn keys_added_since(&self, logical_time: usize) -> (r: Vec<Vec<u8>>)
        requires
            self.wf(),
            logical_time <= self.changes().len(),
        ensures
            r@.len() == self.changes().len() - logical_time,
            forall|i: int|
                0 <= i < r@.len() ==> (#[trigger] r@[i])@ == self.changes()[logical_time + i],
    ;
}

/// The map that a list of entries stands for; a later entry overrides an
/// earlier one with the same key.
pub open spec fn assoc<V>(s: Seq<(Seq<u8>, V)>) -> Map<Seq<u8>, V>
    decreases s.len(),
{
    if s.len() == 0 {
        Map::empty()
    } else {
        assoc(s.drop_last()).insert(s.last().0, s.last().1)
    }
}

pub open spec fn keys_unique<V>(s: Seq<(Seq<u8>, V)>) -> bool {
    forall|i: int, j: int| 0 <= i < j < s.len() ==> s[i].0 != s[j].0
}

proof fn lemma_assoc_domain<V>(s: Seq<(Seq<u8>, V)>)
    ensures
        assoc(s).dom().finite(),
        forall|k: Seq<u8>|
            assoc(s).contains_key(k) <==> exists|i: int| 0 <= i < s.len() && s[i].0 == k,
        keys_unique(s) ==> assoc(s).len() == s.len(),
    decreases s.len(),
{
    if s.len() > 0 {
        let t = s.drop_last();
        lemma_assoc_domain(t);
        assert forall|k: Seq<u8>|
            assoc(s).contains_key(k) <==> exists|i: int| 0 <= i < s.len() && s[i].0 == k by {
            if assoc(s).contains_key(k) && k != s.last().0 {
                let i = choose|i: int| 0 <= i < t.len() && t[i].0 == k;
                assert(s[i].0 == k);
            }
            if exists|i: int| 0 <= i < s.len() && s[i].0 == k {
                let i = choose|i: int| 0 <= i < s.len() && s[i].0 == k;
                if i < t.len() {
                    assert(t[i].0 == k);
                }
            }
        }
        if keys_unique(s) {
            assert(keys_unique(t));
            if assoc(t).contains_key(s.last().0) {
                let i = choose|i: int| 0 <= i < t.len() && t[i].0 == s.last().0;
                assert(s[i].0 == s[s.len() - 1].0);
            }
        }
    }
}

proof fn lemma_assoc_value<V>(s: Seq<(Seq<u8>, V)>, i: int)
    requires
        keys_unique(s),
        0 <= i < s.len(),
    ensures
        assoc(s).contains_key(s[i].0),
        assoc(s)[s[i].0] == s[i].1,
    decreases s.len(),
{
    let t = s.drop_last();
    if i < s.len() - 1 {
        assert(t[i] == s[i]);
        lemma_assoc_value(t, i);
    }
}

proof fn lemma_assoc_update<V>(s: Seq<(Seq<u8>, V)>, i: int, v: V)
    requires
        keys_unique(s),
        0 <= i < s.len(),
    ensures
        assoc(s.update(i, (s[i].0, v))) == assoc(s).insert(s[i].0, v),
        keys_unique(s.update(i, (s[i].0, v))),
    decreases s.len(),
{
    let u = s.update(i, (s[i].0, v));
    let t = s.drop_last();
    if i == s.len() - 1 {
        assert(u.drop_last() =~= t);
        lemma_assoc_domain(t);
        if assoc(t).contains_key(s[i].0) {
            let j = choose|j: int| 0 <= j < t.len() && t[j].0 == s[i].0;
            assert(s[j].0 == s[i].0);
        }
        assert(assoc(u) =~= assoc(s).insert(s[i].0, v));
    } else {
        assert(u.drop_last() =~= t.update(i, (t[i].0, v)));
        lemma_assoc_update(t, i, v);
        assert(assoc(u) =~= assoc(s).insert(s[i].0, v));
    }
}

/// Byte strings compared element by element.
pub fn same_bytes(a: &[u8], b: &[u8]) -> (r: bool)
    ensures
        r == (a@ == b@),
{
    if a.len() != b.len() {
        return false;
    }
    let mut i: usize = 0;
    while i < a.len()
        invariant
            a@.len() == b@.len(),
            i <= a@.len(),
            forall|j: int| 0 <= j < i ==> a@[j] == b@[j],
        decreases a@.len() - i,
    {
        if a[i] != b[i] {
            return false;
        }
        i = i + 1;
    }
    assert(a@ =~= b@);
    true
}

pub fn copy_bytes(a: &[u8]) -> (r: Vec<u8>)
    ensures
        r@ == a@,
{
    vstd::slice::slice_to_vec(a)
}

/// The in-memory backend: every table is a list in memory.
pub struct Simulated {
    events: Vec<(Vec<u8>, Vec<u8>)>,
    changes: Vec<Vec<u8>>,
    vector_clock: Vec<(Vec<u8>, usize)>,
}

pub open spec fn entry_bytes(e: (Vec<u8>, Vec<u8>)) -> (Seq<u8>, Seq<u8>) {
    (e.0@, e.1@)
}

pub open spec fn entry_clock(e: (Vec<u8>, usize)) -> (Seq<u8>, usize) {
    (e.0@, e.1)
}

pub open spec fn key_bytes(k: Vec<u8>) -> Seq<u8> {
    k@
}

impl Simulated {
    pub closed spec fn event_entries(&self) -> Seq<(Seq<u8>, Seq<u8>)> {
        self.events@.map_values(|e: (Vec<u8>, Vec<u8>)| entry_bytes(e))
    }

    pub closed spec fn clock_entries(&self) -> Seq<(Seq<u8>, usize)> {
        self.vector_clock@.map_values(|e: (Vec<u8>, usize)| entry_clock(e))
    }

    /// An empty store.
    pub fn new() -> (r: Simulated)
        ensures
            r.wf(),
            r.events() == Map::<Seq<u8>, Seq<u8>>::empty(),
            r.changes() == Seq::<Seq<u8>>::empty(),
            r.clocks() == Map::<Seq<u8>, usize>::empty(),
    {
        let r = Simulated { events: Vec::new(), changes: Vec::new(), vector_clock: Vec::new() };
        assert(r.event_entries() =~= Seq::empty());
        assert(r.clock_entries() =~= Seq::empty());
        assert(r.changes@.map_values(|k: Vec<u8>| key_bytes(k)) =~= Seq::empty());
        r
    }

    fn find_event(&self, key: &[u8]) -> (r: Option<usize>)
        ensures
            match r {
                Some(i) => i < self.events@.len() && self.event_entries()[i as int].0 == key@,
                None => forall|i: int|
                    0 <= i < self.events@.len() ==> self.event_entries()[i].0 != key@,
            },
    {
        let mut i: usize = 0;
        while i < self.events.len()
            invariant
                i <= self.events@.len(),
                forall|j: int| 0 <= j < i ==> self.event_entries()[j].0 != key@,
            decreases self.events@.len() - i,
        {
            if same_bytes(self.events[i].0.as_slice(), key) {
                return Some(i);
            }
            i = i + 1;
        }
        None
    }

    fn find_clock(&self, id: &[u8]) -> (r: Option<usize>)
        ensures
            match r {
                Some(i) => i < self.vector_clock@.len() && self.clock_entries()[i as int].0
                    == id@,
                None => forall|i: int|
                    0 <= i < self.vector_clock@.len() ==> self.clock_entries()[i].0 != id@,
            },
    {
        let mut i: usize = 0;
        while i < self.vector_clock.len()
            invariant
                i <= self.vector_clock@.len(),
                forall|j: int| 0 <= j < i ==> self.clock_entries()[j].0 != id@,
            decreases self.vector_clock@.len() - i,
        {
            if same_bytes(self.vector_clock[i].0.as_slice(), id) {
                return Some(i);
            }
            i = i + 1;
        }
        None
    }
}

impl Storage for Simulated {
    closed spec fn wf(&self) -> bool {
        keys_unique(self.event_entries()) && keys_unique(self.clock_entries())
    }

    closed spec fn events(&self) -> Map<Seq<u8>, Seq<u8>> {
        assoc(self.event_entries())
    }

    closed spec fn changes(&self) -> Seq<Seq<u8>> {
        self.changes@.map_values(|k: Vec<u8>| key_bytes(k))
    }

    closed spec fn clocks(&self) -> Map<Seq<u8>, usize> {
        assoc(self.clock_entries())
    }

    fn name(&self) -> (r: String)
        ensures
            r@ == "memory"@,
    {
        "memory".to_owned()
    }

    fn n_events(&self) -> (r: usize) {
        proof {
            lemma_assoc_domain(self.event_entries());
        }
        self.events.len()
    }

    fn write_event(&mut self, key: &[u8], event: &[u8]) {
        let found = self.find_event(key);
        if found.is_none() {
            proof {
                lemma_assoc_domain(self.event_entries());
            }
            let ghost before = self.event_entries();
            self.events.push((copy_bytes(key), copy_bytes(event)));
            assert(self.event_entries() =~= before.push((key@, event@)));
            assert(self.event_entries().drop_last() =~= before);
            assert(keys_unique(self.event_entries()));
            assert(self.clock_entries() =~= old(self).clock_entries());
        } else {
            proof {
                let i = found.unwrap() as int;
                lemma_assoc_domain(self.event_entries());
                assert(self.event_entries()[i].0 == key@);
            }
        }
    }

    fn write_change(&mut self, key: &[u8]) {
        let ghost before = self.changes();
        self.changes.push(copy_bytes(key));
        assert(self.changes() =~= before.push(key@));
    }

    fn read_event(&self, key: &[u8]) -> (r: Option<Vec<u8>>) {
        proof {
            lemma_assoc_domain(self.event_entries());
        }
        match self.find_event(key) {
            Some(i) => {
                proof {
                    lemma_assoc_value(self.event_entries(), i as int);
                }
                Some(copy_bytes(self.events[i].1.as_slice()))
            },
            None => None,
        }
    }

    fn update_vector_clock(&mut self, id: &[u8], logical_time: usize) {
        let ghost before = self.clock_entries();
        match self.find_clock(id) {
            Some(i) => {
                let k = copy_bytes(self.vector_clock[i].0.as_slice());
                self.vector_clock.set(i, (k, logical_time));
                proof {
                    lemma_assoc_update(before, i as int, logical_time);
                    assert(self.clock_entries() =~= before.update(i as int, (before[i as int].0, logical_time)));
                }
            },
            None => {
                proof {
                    lemma_assoc_domain(before);
                }
                self.vector_clock.push((copy_bytes(id), logical_time));
                assert(self.clock_entries() =~= before.push((id@, logical_time)));
                assert(self.clock_entries().drop_last() =~= before);
                assert(keys_unique(self.clock_entries()));
            },
        }
    }

    fn read_vector_clock(&self, id: &[u8]) -> (r: Option<usize>) {
        proof {
            lemma_assoc_domain(self.clock_entries());
        }
        match self.find_clock(id) {
            Some(i) => {
                proof {
                    lemma_assoc_value(self.clock_entries(), i as int);
                }
                Some(self.vector_clock[i].1)
            },
            None => None,
        }
    }

    fn keys_added_since(&self, logical_time: usize) -> (r: Vec<Vec<u8>>) {
        let mut out: Vec<Vec<u8>> = Vec::new();
        let mut i: usize = logical_time;
        while i < self.changes.len()
            invariant
                logical_time <= i <= self.changes@.len(),
                out@.len() == i - logical_time,
                forall|j: int|
                    0 <= j < out@.len() ==> (#[trigger] out@[j])@ == self.changes()[logical_time
                        + j],
            decreases self.changes@.len() - i,
        {
            out.push(copy_bytes(self.changes[i].as_slice()));
            i = i + 1;
        }
        out
    }
}

} // verus!
