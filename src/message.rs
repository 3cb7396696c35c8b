//! The three messages that replicas exchange, and their wire format.
use vstd::prelude::*;
use crate::bytes::{le_bytes, le_value, lemma_le_round_trip, lemma_le_value_bound, lemma_pow256_values, pow256, push_le, read_le};
use crate::event::{id_key, key_id, lemma_id_key_injective, lemma_key_id, Id, Transaction};
use crate::storage::copy_bytes;

verus! {

/// A message between replicas. Handling any of them twice has the effect of
/// handling it once.
#[derive(Clone, Debug, PartialEq, Eq)]
pub enum Message {
    /// The named peer is asked for what it has that the receiver lacks.
    Sync(Vec<u8>),
    /// Asks for the events that the receiver's log has accrued since `since`,
    /// to be stored at `dest`.
    SendEvents { since: Transaction<usize>, dest: Vec<u8> },
    /// Events to absorb, with the sender's address and high-water mark.
    StoreEvents { from: Option<(Vec<u8>, Transaction<usize>)>, events: Vec<(Id, Vec<u8>)> },
}

/// A message as mathematics.
pub enum MessageView {
    Sync { peer: Seq<u8> },
    SendEvents { since: nat, dest: Seq<u8> },
    StoreEvents { from: Option<(Seq<u8>, nat)>, events: Seq<(Id, Seq<u8>)> },
}

pub open spec fn event_view(e: (Id, Vec<u8>)) -> (Id, Seq<u8>) {
    (e.0, e.1@)
}

impl View for Message {
    type V = MessageView;

    open spec fn view(&self) -> MessageView {
        match self {
            Message::Sync(peer) => MessageView::Sync { peer: peer@ },
            Message::SendEvents { since, dest } => MessageView::SendEvents {
                since: since.0 as nat,
                dest: dest@,
            },
            Message::StoreEvents { from, events } => MessageView::StoreEvents {
                from: match from {
                    Some(o) => Some((o.0@, o.1.0 as nat)),
                    None => None,
                },
                events: events_view(events@),
            },
        }
    }
}

/// Why a byte string is not a message, or a message cannot be written.
#[derive(Clone, Copy, Debug, PartialEq, Eq, Structural)]
pub enum WireError {
    /// The tag byte names no message kind.
    UnknownMessage,
    /// The bytes break the layout of their kind.
    Malformed,
    /// A length does not fit its field.
    TooLarge,
}

pub open spec fn enc_addr(a: Seq<u8>) -> Seq<u8> {
    le_bytes(a.len(), 2) + a
}

pub open spec fn enc_event(e: (Id, Seq<u8>)) -> Seq<u8> {
    id_key(e.0) + le_bytes(e.1.len(), 4) + e.1
}

pub open spec fn enc_events(s: Seq<(Id, Seq<u8>)>) -> Seq<u8>
    decreases s.len(),
{
    if s.len() == 0 {
        Seq::empty()
    } else {
        enc_events(s.drop_last()) + enc_event(s.last())
    }
}

pub open spec fn enc_from(from: Option<(Seq<u8>, nat)>) -> Seq<u8> {
    match from {
        Some(o) => seq![1u8] + enc_addr(o.0) + le_bytes(o.1, 8),
        None => seq![0u8],
    }
}

/// The wire form: a tag byte, then the fields; integers little-endian,
/// identifiers big-endian.
pub open spec fn encoding(m: MessageView) -> Seq<u8> {
    match m {
        MessageView::Sync { peer } => seq![1u8] + enc_addr(peer),
        MessageView::SendEvents { since, dest } => seq![2u8] + le_bytes(since, 8) + enc_addr(dest),
        MessageView::StoreEvents { from, events } => seq![3u8] + enc_from(from) + le_bytes(
            events.len(),
            4,
        ) + enc_events(events),
    }
}

pub open spec fn addr_fits(a: Seq<u8>) -> bool {
    a.len() < pow256(2)
}

/// Every length and number fits the field that holds it.
pub open spec fn wire_ok(m: MessageView) -> bool {
    match m {
        MessageView::Sync { peer } => addr_fits(peer),
        MessageView::SendEvents { since, dest } => since <= usize::MAX && addr_fits(dest),
        MessageView::StoreEvents { from, events } => {
            &&& match from {
                Some(o) => addr_fits(o.0) && o.1 <= usize::MAX,
                None => true,
            }
            &&& events.len() < pow256(4)
            &&& forall|i: int| 0 <= i < events.len() ==> (#[trigger] events[i]).1.len() < pow256(4)
        },
    }
}

/// An address at `pos`: its 2-byte length, then its bytes.
pub open spec fn parse_addr(b: Seq<u8>, pos: int) -> Option<(Seq<u8>, int)> {
    if pos + 2 > b.len() {
        None
    } else {
        let n = le_value(b.subrange(pos, pos + 2));
        if pos + 2 + n > b.len() {
            None
        } else {
            Some((b.subrange(pos + 2, pos + 2 + n), pos + 2 + n))
        }
    }
}

/// An event at `pos`: 16 identifier bytes, a 4-byte length, the value.
pub open spec fn parse_event(b: Seq<u8>, pos: int) -> Option<((Id, Seq<u8>), int)> {
    if pos + 20 > b.len() {
        None
    } else {
        let n = le_value(b.subrange(pos + 16, pos + 20));
        if pos + 20 + n > b.len() {
            None
        } else {
            Some(((key_id(b.subrange(pos, pos + 16)), b.subrange(pos + 20, pos + 20 + n)), pos + 20 + n))
        }
    }
}

/// `n` events one after another from `pos`.
pub open spec fn parse_events(b: Seq<u8>, pos: int, n: nat) -> Option<(Seq<(Id, Seq<u8>)>, int)>
    decreases n,
{
    if n == 0 {
        Some((Seq::empty(), pos))
    } else {
        match parse_events(b, pos, (n - 1) as nat) {
            None => None,
            Some(r) => match parse_event(b, r.1) {
                None => None,
                Some(e) => Some((r.0.push(e.0), e.1)),
            },
        }
    }
}

pub open spec fn parse_from(b: Seq<u8>, pos: int) -> Option<(Option<(Seq<u8>, nat)>, int)> {
    if pos + 1 > b.len() {
        None
    } else if b[pos] == 0 {
        Some((None, pos + 1))
    } else if b[pos] == 1 {
        match parse_addr(b, pos + 1) {
            None => None,
            Some(a) => if a.1 + 8 > b.len() || le_value(b.subrange(a.1, a.1 + 8)) > usize::MAX {
                None
            } else {
                Some((Some((a.0, le_value(b.subrange(a.1, a.1 + 8)))), a.1 + 8))
            },
        }
    } else {
        None
    }
}

pub open spec fn parse_store(b: Seq<u8>) -> Result<MessageView, WireError> {
    match parse_from(b, 1) {
        None => Err(WireError::Malformed),
        Some(f) => if f.1 + 4 > b.len() {
            Err(WireError::Malformed)
        } else {
            match parse_events(b, f.1 + 4, le_value(b.subrange(f.1, f.1 + 4))) {
                Some(es) => if es.1 == b.len() {
                    Ok(MessageView::StoreEvents { from: f.0, events: es.0 })
                } else {
                    Err(WireError::Malformed)
                },
                None => Err(WireError::Malformed),
            }
        },
    }
}

/// The message that `b` holds, if it holds exactly one.
pub open spec fn parse(b: Seq<u8>) -> Result<MessageView, WireError> {
    if b.len() == 0 {
        Err(WireError::Malformed)
    } else if b[0] == 1 {
        match parse_addr(b, 1) {
            Some(a) => if a.1 == b.len() {
                Ok(MessageView::Sync { peer: a.0 })
            } else {
                Err(WireError::Malformed)
            },
            None => Err(WireError::Malformed),
        }
    } else if b[0] == 2 {
        if 9 > b.len() || le_value(b.subrange(1, 9)) > usize::MAX {
            Err(WireError::Malformed)
        } else {
            match parse_addr(b, 9) {
                Some(a) => if a.1 == b.len() {
                    Ok(
                        MessageView::SendEvents {
                            since: le_value(b.subrange(1, 9)),
                            dest: a.0,
                        },
                    )
                } else {
                    Err(WireError::Malformed)
                },
                None => Err(WireError::Malformed),
            }
        }
    } else if b[0] == 3 {
        parse_store(b)
    } else {
        Err(WireError::UnknownMessage)
    }
}

pub open spec fn decoded_view(r: Result<Message, WireError>) -> Result<MessageView, WireError> {
    match r {
        Ok(m) => Ok(m@),
        Err(e) => Err(e),
    }
}

proof fn lemma_usize_fits_u64()
    ensures
        usize::MAX < pow256(8),
{
    lemma_pow256_values();
}

proof fn lemma_parse_addr(b: Seq<u8>, pos: int, a: Seq<u8>)
    requires
        addr_fits(a),
        0 <= pos,
        pos + enc_addr(a).len() <= b.len(),
        b.subrange(pos, pos + enc_addr(a).len()) == enc_addr(a),
    ensures
        enc_addr(a).len() == a.len() + 2,
        parse_addr(b, pos) == Some((a, pos + 2 + a.len())),
{
    lemma_le_round_trip(a.len(), 2);
    let e = enc_addr(a);
    assert(b.subrange(pos, pos + 2) =~= e.subrange(0, 2));
    assert(e.subrange(0, 2) =~= le_bytes(a.len(), 2));
    assert(b.subrange(pos + 2, pos + 2 + a.len()) =~= e.subrange(2, e.len() as int));
    assert(e.subrange(2, e.len() as int) =~= a);
}

proof fn lemma_parse_event(b: Seq<u8>, pos: int, ev: (Id, Seq<u8>))
    requires
        ev.1.len() < pow256(4),
        0 <= pos,
        pos + enc_event(ev).len() <= b.len(),
        b.subrange(pos, pos + enc_event(ev).len()) == enc_event(ev),
    ensures
        enc_event(ev).len() == ev.1.len() + 20,
        parse_event(b, pos) == Some((ev, pos + 20 + ev.1.len())),
{
    lemma_le_round_trip(ev.1.len(), 4);
    lemma_id_key_injective(ev.0, ev.0);
    let e = enc_event(ev);
    assert(b.subrange(pos, pos + 16) =~= e.subrange(0, 16));
    assert(e.subrange(0, 16) =~= id_key(ev.0));
    lemma_key_id(ev.0, b.subrange(pos, pos + 16));
    assert(b.subrange(pos + 16, pos + 20) =~= e.subrange(16, 20));
    assert(e.subrange(16, 20) =~= le_bytes(ev.1.len(), 4));
    assert(b.subrange(pos + 20, pos + 20 + ev.1.len()) =~= e.subrange(20, e.len() as int));
    assert(e.subrange(20, e.len() as int) =~= ev.1);
}

proof fn lemma_parse_events(b: Seq<u8>, pos: int, es: Seq<(Id, Seq<u8>)>)
    requires
        forall|i: int| 0 <= i < es.len() ==> (#[trigger] es[i]).1.len() < pow256(4),
        0 <= pos,
        pos + enc_events(es).len() <= b.len(),
        b.subrange(pos, pos + enc_events(es).len()) == enc_events(es),
    ensures
        parse_events(b, pos, es.len()) == Some((es, pos + enc_events(es).len())),
    decreases es.len(),
{
    if es.len() > 0 {
        let t = es.drop_last();
        let e = es.last();
        let whole = enc_events(es);
        let head = enc_events(t);
        assert(whole == head + enc_event(e));
        assert(b.subrange(pos, pos + head.len()) =~= whole.subrange(0, head.len() as int));
        assert(whole.subrange(0, head.len() as int) =~= head);
        assert forall|i: int| 0 <= i < t.len() implies (#[trigger] t[i]).1.len() < pow256(4) by {
            assert(t[i] == es[i]);
        }
        lemma_parse_events(b, pos, t);
        let next = pos + head.len();
        assert(b.subrange(next, next + enc_event(e).len()) =~= whole.subrange(
            head.len() as int,
            whole.len() as int,
        ));
        assert(whole.subrange(head.len() as int, whole.len() as int) =~= enc_event(e));
        assert(es[es.len() - 1] == e);
        lemma_parse_event(b, next, e);
        assert(t.push(e) =~= es);
    }
}

/// Reading back what a message was written as gives the message, for every
/// message whose lengths fit their fields.
pub proof fn lemma_round_trip(m: MessageView)
    requires
        wire_ok(m),
    ensures
        parse(encoding(m)) == Ok::<MessageView, WireError>(m),
{
    let b = encoding(m);
    lemma_usize_fits_u64();
    match m {
        MessageView::Sync { peer } => {
            assert(b.subrange(1, b.len() as int) =~= enc_addr(peer));
            lemma_parse_addr(b, 1, peer);
        },
        MessageView::SendEvents { since, dest } => {
            lemma_le_round_trip(since, 8);
            assert(b.subrange(1, 9) =~= le_bytes(since, 8));
            assert(b.subrange(9, b.len() as int) =~= enc_addr(dest));
            lemma_parse_addr(b, 9, dest);
        },
        MessageView::StoreEvents { from, events } => {
            lemma_le_round_trip(events.len(), 4);
            let f = enc_from(from);
            let fe: int = 1 + f.len() as int;
            match from {
                Some(o) => {
                    lemma_le_round_trip(o.1, 8);
                    assert(b[1] == 1u8);
                    let ea = enc_addr(o.0);
                    let ea_len: int = ea.len() as int;
                    assert(b.subrange(2, 2 + ea_len) =~= ea);
                    lemma_parse_addr(b, 2, o.0);
                    assert(b.subrange(2 + ea_len, 2 + ea_len + 8) =~= le_bytes(o.1, 8));
                },
                None => {
                    assert(b[1] == 0u8);
                },
            }
            assert(parse_from(b, 1) == Some((from, fe)));
            assert(b.subrange(fe, fe + 4) =~= le_bytes(events.len(), 4));
            let ee = enc_events(events);
            let ee_len: int = ee.len() as int;
            assert(b.subrange(fe + 4, fe + 4 + ee_len) =~= ee);
            lemma_parse_events(b, fe + 4, events);
        },
    }
}

/// Appends `a`.
fn push_bytes(out: &mut Vec<u8>, a: &[u8])
    ensures
        final(out)@ == old(out)@ + a@,
{
    let mut i: usize = 0;
    while i < a.len()
        invariant
            i <= a@.len(),
            out@ == old(out)@ + a@.subrange(0, i as int),
        decreases a@.len() - i,
    {
        out.push(a[i]);
        i = i + 1;
        assert(out@ =~= old(out)@ + a@.subrange(0, i as int));
    }
    assert(a@.subrange(0, i as int) =~= a@);
}

fn push_addr(out: &mut Vec<u8>, a: &[u8])
    requires
        addr_fits(a@),
    ensures
        final(out)@ == old(out)@ + enc_addr(a@),
{
    proof {
        lemma_pow256_values();
    }
    push_le(out, a.len() as u64, 2);
    push_bytes(out, a);
    assert(final(out)@ =~= old(out)@ + enc_addr(a@));
}

/// Reads an address at `pos`.
fn read_addr(b: &[u8], pos: usize) -> (r: Option<(Vec<u8>, usize)>)
    ensures
        r.is_some() ==> r.unwrap().1 <= b@.len(),
        match parse_addr(b@, pos as int) {
            Some(p) => r.is_some() && r.unwrap().0@ == p.0 && r.unwrap().1 == p.1,
            None => r.is_none(),
        },
{
    if b.len() < 2 || pos > b.len() - 2 {
        return None;
    }
    proof {
        lemma_pow256_values();
        lemma_le_value_bound(b@.subrange(pos as int, pos + 2));
    }
    let n = read_le(b, pos, 2) as usize;
    if n > b.len() - pos - 2 {
        return None;
    }
    let start = pos + 2;
    let mut a: Vec<u8> = Vec::new();
    let end = start + n;
    let mut i: usize = start;
    while i < end
        invariant
            start <= i <= end <= b@.len(),
            end == start + n,
            a@ == b@.subrange(start as int, i as int),
        decreases end - i,
    {
        a.push(b[i]);
        i = i + 1;
        assert(a@ =~= b@.subrange(start as int, i as int));
    }
    Some((a, end))
}

/// Reads an event at `pos`.
fn read_event(b: &[u8], pos: usize) -> (r: Option<((Id, Vec<u8>), usize)>)
    ensures
        r.is_some() ==> r.unwrap().1 <= b@.len(),
        match parse_event(b@, pos as int) {
            Some(p) => r.is_some() && event_view(r.unwrap().0) == p.0 && r.unwrap().1 == p.1,
            None => r.is_none(),
        },
{
    if b.len() < 20 || pos > b.len() - 20 {
        return None;
    }
    let id = Id::read_from(b, pos);
    proof {
        lemma_key_id(id, b@.subrange(pos as int, pos + 16));
    }
    proof {
        lemma_pow256_values();
        lemma_le_value_bound(b@.subrange(pos + 16, pos + 20));
    }
    let n = read_le(b, pos + 16, 4) as usize;
    if n > b.len() - pos - 20 {
        return None;
    }
    let start = pos + 20;
    let mut v: Vec<u8> = Vec::new();
    let end = start + n;
    let mut i: usize = start;
    while i < end
        invariant
            start <= i <= end <= b@.len(),
            end == start + n,
            v@ == b@.subrange(start as int, i as int),
        decreases end - i,
    {
        v.push(b[i]);
        i = i + 1;
        assert(v@ =~= b@.subrange(start as int, i as int));
    }
    Some(((id, v), end))
}

proof fn lemma_parse_events_stuck(b: Seq<u8>, pos: int, i: nat, n: nat)
    requires
        i <= n,
        parse_events(b, pos, i) is None,
    ensures
        parse_events(b, pos, n) is None,
    decreases n,
{
    if i < n {
        lemma_parse_events_stuck(b, pos, i, (n - 1) as nat);
    }
}

pub open spec fn events_view(s: Seq<(Id, Vec<u8>)>) -> Seq<(Id, Seq<u8>)> {
    s.map_values(|e: (Id, Vec<u8>)| event_view(e))
}

impl Message {
    /// The wire form of this message; `TooLarge` when a length does not fit
    /// its field.
    pub fn encode(&self) -> (r: Result<Vec<u8>, WireError>)
        ensures
            r.is_ok() <==> wire_ok(self@),
            r.is_ok() ==> r.unwrap()@ == encoding(self@),
            r.is_err() ==> r == Err::<Vec<u8>, WireError>(WireError::TooLarge),
    {
        proof {
            lemma_pow256_values();
        }
        let mut out: Vec<u8> = Vec::new();
        match self {
            Message::Sync(peer) => {
                if peer.len() >= 0x1_0000 {
                    return Err(WireError::TooLarge);
                }
                out.push(1u8);
                push_addr(&mut out, peer.as_slice());
                assert(out@ =~= encoding(self@));
            },
            Message::SendEvents { since, dest } => {
                if dest.len() >= 0x1_0000 {
                    return Err(WireError::TooLarge);
                }
                out.push(2u8);
                push_le(&mut out, since.0 as u64, 8);
                push_addr(&mut out, dest.as_slice());
                assert(out@ =~= encoding(self@));
            },
            Message::StoreEvents { from, events } => {
                if events.len() as u64 >= 0x1_0000_0000u64 {
                    return Err(WireError::TooLarge);
                }
                let ghost evs = events_view(events@);
                out.push(3u8);
                match from {
                    Some(o) => {
                        if o.0.len() >= 0x1_0000 {
                            return Err(WireError::TooLarge);
                        }
                        out.push(1u8);
                        push_addr(&mut out, o.0.as_slice());
                        push_le(&mut out, o.1.0 as u64, 8);
                    },
                    None => {
                        out.push(0u8);
                    },
                }
                push_le(&mut out, events.len() as u64, 4);
                let ghost head = out@;
                assert(head =~= seq![3u8] + enc_from(
                    match from {
                        Some(o) => Some((o.0@, o.1.0 as nat)),
                        None => None,
                    },
                ) + le_bytes(events@.len(), 4));
                let mut i: usize = 0;
                while i < events.len()
                    invariant
                        i <= events@.len(),
                        pow256(4) == 0x1_0000_0000,
                        evs == events_view(events@),
                        self@ == (MessageView::StoreEvents {
                            from: crate::log::origin_view(*from),
                            events: evs,
                        }),
                        out@ == head + enc_events(evs.subrange(0, i as int)),
                        forall|j: int| 0 <= j < i ==> (#[trigger] evs[j]).1.len() < pow256(4),
                    decreases events@.len() - i,
                {
                    let v = events[i].1.as_slice();
                    assert(evs[i as int] == event_view(events@[i as int]));
                    if v.len() as u64 >= 0x1_0000_0000u64 {
                        assert(evs[i as int].1.len() >= pow256(4));
                        return Err(WireError::TooLarge);
                    }
                    let key = events[i].0.to_bytes();
                    push_bytes(&mut out, key.as_slice());
                    push_le(&mut out, v.len() as u64, 4);
                    push_bytes(&mut out, v);
                    assert(evs.subrange(0, i + 1).drop_last() =~= evs.subrange(0, i as int));
                    assert(out@ =~= head + enc_events(evs.subrange(0, i + 1)));
                    i = i + 1;
                }
                assert(evs.subrange(0, i as int) =~= evs);
            },
        }
        Ok(out)
    }

    /// The message that `b` holds: `UnknownMessage` for a tag byte other than
    /// 1, 2 or 3, `Malformed` for bytes that break their kind's layout.
    pub fn decode(b: &[u8]) -> (r: Result<Message, WireError>)
        ensures
            decoded_view(r) == parse(b@),
    {
        proof {
            lemma_pow256_values();
        }
        if b.len() == 0 {
            return Err(WireError::Malformed);
        }
        let tag = b[0];
        if tag == 1 {
            match read_addr(b, 1) {
                Some((a, p)) => {
                    if p == b.len() {
                        Ok(Message::Sync(a))
                    } else {
                        Err(WireError::Malformed)
                    }
                },
                None => Err(WireError::Malformed),
            }
        } else if tag == 2 {
            if b.len() < 9 {
                return Err(WireError::Malformed);
            }
            let since = read_le(b, 1, 8);
            if since > usize::MAX as u64 {
                return Err(WireError::Malformed);
            }
            match read_addr(b, 9) {
                Some((a, p)) => {
                    if p == b.len() {
                        Ok(Message::SendEvents { since: Transaction(since as usize), dest: a })
                    } else {
                        Err(WireError::Malformed)
                    }
                },
                None => Err(WireError::Malformed),
            }
        } else if tag == 3 {
            Message::decode_store(b)
        } else {
            Err(WireError::UnknownMessage)
        }
    }

    fn decode_store(b: &[u8]) -> (r: Result<Message, WireError>)
        requires
            b@.len() > 0,
            b@[0] == 3,
        ensures
            decoded_view(r) == parse_store(b@),
    {
        proof {
            lemma_pow256_values();
        }
        if b.len() < 2 {
            return Err(WireError::Malformed);
        }
        let has_from = b[1];
        let mut pos: usize;
        let from: Option<(Vec<u8>, Transaction<usize>)>;
        if has_from == 0 {
            from = None;
            pos = 2;
        } else if has_from == 1 {
            match read_addr(b, 2) {
                Some((a, p)) => {
                    if b.len() < 8 || p > b.len() - 8 {
                        return Err(WireError::Malformed);
                    }
                    let clock = read_le(b, p, 8);
                    if clock > usize::MAX as u64 {
                        return Err(WireError::Malformed);
                    }
                    from = Some((a, Transaction(clock as usize)));
                    pos = p + 8;
                },
                None => {
                    return Err(WireError::Malformed);
                },
            }
        } else {
            return Err(WireError::Malformed);
        }
        let ghost f = parse_from(b@, 1);
        assert(f is Some);
        assert(f.unwrap().1 == pos);
        if b.len() < 4 || pos > b.len() - 4 {
            return Err(WireError::Malformed);
        }
        let n = read_le(b, pos, 4);
        let ghost start = pos + 4;
        pos = pos + 4;
        let mut events: Vec<(Id, Vec<u8>)> = Vec::new();
        let mut i: u64 = 0;
        while i < n
            invariant
                i <= n,
                parse_events(b@, start as int, i as nat) == Some((events_view(events@), pos as int)),
                pos <= b@.len(),
                4 <= start <= b@.len(),
                b@.len() > 0 && b@[0] == 3,
                parse_from(b@, 1) == Some((crate::log::origin_view(from), start - 4)),
                n as nat == le_value(b@.subrange(start - 4, start)),
            decreases n - i,
        {
            match read_event(b, pos) {
                Some((e, p)) => {
                    let ghost before = events@;
                    events.push(e);
                    assert(events_view(events@) =~= events_view(before).push(event_view(e)));
                    pos = p;
                },
                None => {
                    proof {
                        assert(parse_events(b@, start as int, (i + 1) as nat) is None);
                        lemma_parse_events_stuck(b@, start as int, (i + 1) as nat, n as nat);
                    }
                    return Err(WireError::Malformed);
                },
            }
            i = i + 1;
        }
        if pos != b.len() {
            return Err(WireError::Malformed);
        }
        let r = Message::StoreEvents { from, events };
        assert(decoded_view(Ok(r)) == parse_store(b@));
        Ok(r)
    }
}

} // verus!
