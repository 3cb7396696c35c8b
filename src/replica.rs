//! A replica: an event log with an address, acting on the three messages.
use vstd::prelude::*;
use crate::event::{id_key, key_id, lemma_id_of_key, lemma_key_id, Id, Transaction};
use crate::log::{absorb, entries, model_of, stamp, Database, Entry, LogModel};
use crate::message::{event_view, Message, MessageView};
use crate::storage::{copy_bytes, same_bytes, Simulated, Storage};

verus! {

/// A replica as mathematics: its address and its log.
pub struct ReplicaModel {
    pub addr: Seq<u8>,
    pub log: LogModel,
}

/// Why a replica refused a message.
#[derive(Clone, Copy, Debug, PartialEq, Eq, Structural)]
pub enum ReplicaError {
    /// Events that claim to come from the receiving replica itself.
    SelfLoop,
}

/// A message and the address that it is for.
#[derive(Clone, Debug, PartialEq, Eq)]
pub struct Envelope {
    pub to: Vec<u8>,
    pub msg: Message,
}

pub type Outcome = Result<Option<(Seq<u8>, MessageView)>, ReplicaError>;

pub open spec fn keyed(evs: Seq<(Id, Seq<u8>)>) -> Seq<Entry> {
    evs.map_values(|e: (Id, Seq<u8>)| (id_key(e.0), e.1))
}

pub open spec fn identified(evs: Seq<Entry>) -> Seq<(Id, Seq<u8>)> {
    evs.map_values(|e: Entry| (key_id(e.0), e.1))
}

/// An offset past the high-water mark means the peer was reset: start over.
pub open spec fn clamp(since: nat, hw: nat) -> nat {
    if since > hw {
        0
    } else {
        since
    }
}

/// The new state of replica `s` and its reply, on message `m`.
pub open spec fn handle(s: ReplicaModel, m: MessageView) -> (ReplicaModel, Outcome) {
    match m {
        MessageView::Sync { peer } => (
            s,
            Ok(Some((peer, MessageView::SendEvents { since: s.log.clock(peer), dest: s.addr }))),
        ),
        MessageView::SendEvents { since, dest } => (
            s,
            Ok(
                Some(
                    (
                        dest,
                        MessageView::StoreEvents {
                            from: Some((s.addr, s.log.log.len())),
                            events: identified(
                                s.log.since(clamp(since, s.log.log.len()) as int),
                            ),
                        },
                    ),
                ),
            ),
        ),
        MessageView::StoreEvents { from, events } => {
            if from.is_some() && from.unwrap().0 == s.addr {
                (s, Err(ReplicaError::SelfLoop))
            } else {
                (ReplicaModel { addr: s.addr, log: stamp(absorb(s.log, keyed(events)), from) }, Ok(None))
            }
        },
    }
}

pub open spec fn outcome_view(r: Result<Option<Envelope>, ReplicaError>) -> Outcome {
    match r {
        Ok(Some(e)) => Ok(Some((e.to@, e.msg@))),
        Ok(None) => Ok(None),
        Err(e) => Err(e),
    }
}

/// What `receiver` holds after pulling from `sender`: the events that `sender`
/// accrued since the clock that `receiver` keeps for it, stamped with
/// `sender`'s high-water mark.
pub open spec fn pull(receiver: ReplicaModel, sender: ReplicaModel) -> ReplicaModel {
    if receiver.addr == sender.addr {
        receiver
    } else {
        let hw = sender.log.log.len();
        ReplicaModel {
            addr: receiver.addr,
            log: stamp(
                absorb(receiver.log, sender.log.since(clamp(receiver.log.clock(sender.addr), hw) as int)),
                Some((sender.addr, hw)),
            ),
        }
    }
}

/// Both replicas after a full exchange: `b` pulls from `a`, then `a` from `b`.
pub open spec fn merged(a: ReplicaModel, b: ReplicaModel) -> (ReplicaModel, ReplicaModel) {
    let b1 = pull(b, a);
    (pull(a, b1), b1)
}

proof fn lemma_keyed_identified(evs: Seq<Entry>)
    requires
        forall|i: int| 0 <= i < evs.len() ==> (#[trigger] evs[i]).0.len() == 16,
    ensures
        keyed(identified(evs)) == evs,
{
    assert forall|i: int| 0 <= i < evs.len() implies #[trigger] keyed(identified(evs))[i] == evs[i] by {
        lemma_id_of_key(evs[i].0);
    }
    assert(keyed(identified(evs)) =~= evs);
}

/// An event log with an address.
pub struct Replica<S: Storage> {
    addr: Vec<u8>,
    db: Database<S>,
}

impl<S: Storage> View for Replica<S> {
    type V = ReplicaModel;

    closed spec fn view(&self) -> ReplicaModel {
        ReplicaModel { addr: self.addr@, log: self.db@ }
    }
}

impl Replica<Simulated> {
    /// An empty replica in memory at `addr`.
    pub fn new(addr: Vec<u8>) -> (r: Replica<Simulated>)
        ensures
            r.wf(),
            r@.addr == addr@,
            r@.log.events == Map::<Seq<u8>, Seq<u8>>::empty(),
            r@.log.log == Seq::<Seq<u8>>::empty(),
            r@.log.clocks == Map::<Seq<u8>, nat>::empty(),
    {
        Replica { addr, db: Database::new() }
    }
}

impl<S: Storage> Replica<S> {
    pub closed spec fn log_ok(&self) -> bool {
        self.db.wf()
    }

    pub open spec fn wf(&self) -> bool {
        self.log_ok() && self@.log.wf()
    }

    /// A replica at `addr` over a backend whose tables are consistent.
    pub fn with_storage(addr: Vec<u8>, storage: S) -> (r: Self)
        requires
            storage.wf(),
            model_of(storage).wf(),
        ensures
            r.wf(),
            r@ == (ReplicaModel { addr: addr@, log: model_of(storage) }),
    {
        Replica { addr, db: Database::with_storage(storage) }
    }

    pub fn addr(&self) -> (r: &Vec<u8>)
        ensures
            r@ == self@.addr,
    {
        &self.addr
    }

    pub fn database(&self) -> (r: &Database<S>)
        requires
            self.wf(),
        ensures
            r.wf(),
            r@ == self@.log,
    {
        &self.db
    }

    /// Stores local events under fresh identifiers.
    pub fn add_local(&mut self, values: &[Vec<u8>]) -> (r: Vec<Id>)
        requires
            old(self).wf(),
        ensures
            final(self).wf(),
            r@.len() == values@.len(),
            final(self)@ == (ReplicaModel {
                addr: old(self)@.addr,
                log: absorb(old(self)@.log, crate::log::paired(r@, values@)),
            }),
    {
        self.db.add_local(values)
    }

    /// Acts on one message: answers `Sync` and `SendEvents`, absorbs
    /// `StoreEvents`.
    pub fn recv(&mut self, msg: Message) -> (r: Result<Option<Envelope>, ReplicaError>)
        requires
            old(self).wf(),
        ensures
            final(self).wf(),
            (final(self)@, outcome_view(r)) == handle(old(self)@, msg@),
    {
        match msg {
            Message::Sync(peer) => {
                let since = self.db.transaction_logical_clock(peer.as_slice());
                let dest = copy_bytes(self.addr.as_slice());
                Ok(Some(Envelope { to: peer, msg: Message::SendEvents { since, dest } }))
            },
            Message::SendEvents { since, dest } => {
                let hw = self.db.high_water();
                let start = if since.0 > hw.0 {
                    0
                } else {
                    since.0
                };
                let read = self.db.read_events(Transaction(start));
                let (events, hw) = match read {
                    Ok(x) => x,
                    Err(_) => {
                        assert(false);
                        (Vec::new(), hw)
                    },
                };
                proof {
                    let want = identified(self@.log.since(start as int));
                    let got = crate::message::events_view(events@);
                    assert forall|i: int| 0 <= i < got.len() implies #[trigger] got[i] == want[i] by {
                        assert(entries(events@)[i] == self@.log.since(start as int)[i]);
                        lemma_key_id(events@[i].0, self@.log.since(start as int)[i].0);
                    }
                    assert(got =~= want);
                }
                let from = Some((copy_bytes(self.addr.as_slice()), hw));
                Ok(Some(Envelope { to: dest, msg: Message::StoreEvents { from, events } }))
            },
            Message::StoreEvents { from, events } => {
                let self_loop = match &from {
                    Some(o) => same_bytes(o.0.as_slice(), self.addr.as_slice()),
                    None => false,
                };
                if self_loop {
                    return Err(ReplicaError::SelfLoop);
                }
                proof {
                    let v = crate::message::events_view(events@);
                    assert(entries(events@) =~= keyed(v));
                }
                self.db.write_events(from, events.as_slice());
                Ok(None)
            },
        }
    }
}

/// `receiver` pulls from `sender` through the messages of the protocol:
/// `Sync` to the receiver, its `SendEvents` to the sender, the sender's
/// `StoreEvents` back to the receiver.
fn pull_from<S: Storage>(receiver: &mut Replica<S>, sender: &mut Replica<S>)
    requires
        old(receiver).wf(),
        old(sender).wf(),
    ensures
        final(receiver).wf(),
        final(sender).wf(),
        final(receiver)@ == pull(old(receiver)@, old(sender)@),
        final(sender)@ == old(sender)@,
{
    let ghost r0 = receiver@;
    let ghost s0 = sender@;
    let first = receiver.recv(Message::Sync(copy_bytes(sender.addr.as_slice())));
    let ask = match first {
        Ok(Some(e)) => e,
        _ => {
            assert(false);
            return ;
        },
    };
    let second = sender.recv(ask.msg);
    let answer = match second {
        Ok(Some(e)) => e,
        _ => {
            assert(false);
            return ;
        },
    };
    proof {
        let c = clamp(r0.log.clock(s0.addr), s0.log.log.len());
        assert forall|i: int| 0 <= i < s0.log.since(c as int).len() implies (#[trigger] s0.log.since(
            c as int,
        )[i]).0.len() == 16 by {
            assert(s0.log.since(c as int)[i].0 == s0.log.log[c + i]);
        }
        lemma_keyed_identified(s0.log.since(c as int));
    }
    let _ = receiver.recv(answer.msg);
}

/// A full exchange between two replicas: `remote` pulls from `local`, then
/// `local` from `remote`.
pub fn merge<S: Storage>(local: &mut Replica<S>, remote: &mut Replica<S>)
    requires
        old(local).wf(),
        old(remote).wf(),
    ensures
        final(local).wf(),
        final(remote).wf(),
        (final(local)@, final(remote)@) == merged(old(local)@, old(remote)@),
{
    pull_from(remote, local);
    pull_from(local, remote);
}

/// An in-memory replica at a fresh random address.
pub fn mem() -> (r: Replica<Simulated>)
    ensures
        r.wf(),
        r@.addr.len() == 16,
        r@.log.events == Map::<Seq<u8>, Seq<u8>>::empty(),
        r@.log.log == Seq::<Seq<u8>>::empty(),
{
    Replica::new(fresh_address())
}

/// Relies on uuid::Uuid::new_v4 and Uuid::as_bytes: 16 random bytes.
#[verifier::external_body]
fn fresh_address() -> (r: Vec<u8>)
    ensures
        r@.len() == 16,
{
    uuid::Uuid::new_v4().as_bytes().to_vec()
}

} // verus!
