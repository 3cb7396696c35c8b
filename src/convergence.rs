//! Why replicas converge: what a pull does to the receiver's events, and the
//! algebra of `merge`.
use vstd::prelude::*;
use crate::log::lemma_absorb;
use crate::replica::{clamp, merged, pull, ReplicaModel};

verus! {

/// Two event maps joined; where both hold a key, the first one's value stands.
pub open spec fn join(x: Map<Seq<u8>, Seq<u8>>, y: Map<Seq<u8>, Seq<u8>>) -> Map<Seq<u8>, Seq<u8>> {
    Map::new(
        |k: Seq<u8>| x.contains_key(k) || y.contains_key(k),
        |k: Seq<u8>|
            if x.contains_key(k) {
                x[k]
            } else {
                y[k]
            },
    )
}

/// The clock that `x` keeps for `y` is true: it does not pass the end of `y`'s
/// append log, and `x` holds every event that `y` appended before it.
pub open spec fn knows(x: ReplicaModel, y: ReplicaModel) -> bool {
    &&& x.log.clock(y.addr) <= y.log.log.len()
    &&& forall|i: int|
        0 <= i < x.log.clock(y.addr) ==> x.log.events.contains_key(#[trigger] y.log.log[i])
}

/// Where both replicas hold an identifier they hold the same value.
pub open spec fn agree(x: ReplicaModel, y: ReplicaModel) -> bool {
    forall|k: Seq<u8>|
        #[trigger] x.log.events.contains_key(k) && y.log.events.contains_key(k) ==> x.log.events[k]
            == y.log.events[k]
}

/// What a pull does: the receiver's log stays consistent and only grows, its
/// new entries are events of the sender, its clock for the sender becomes the
/// sender's high-water mark, and it gains exactly the sender's events from the
/// (clamped) clock on, keeping the values it had.
pub proof fn lemma_pull(r: ReplicaModel, s: ReplicaModel)
    requires
        r.log.wf(),
        s.log.wf(),
        r.addr != s.addr,
    ensures
        pull(r, s).addr == r.addr,
        pull(r, s).log.wf(),
        pull(r, s).log.log.len() >= r.log.log.len(),
        pull(r, s).log.log.subrange(0, r.log.log.len() as int) == r.log.log,
        forall|i: int|
            r.log.log.len() <= i < pull(r, s).log.log.len() ==> s.log.events.contains_key(
                #[trigger] pull(r, s).log.log[i],
            ),
        pull(r, s).log.clocks == r.log.clocks.insert(s.addr, s.log.log.len()),
        forall|k: Seq<u8>| #[trigger]
            pull(r, s).log.events.contains_key(k) <==> (r.log.events.contains_key(k) || exists|i: int|
                clamp(r.log.clock(s.addr), s.log.log.len()) <= i < s.log.log.len() && s.log.log[i]
                    == k),
        forall|k: Seq<u8>|
            r.log.events.contains_key(k) ==> #[trigger] pull(r, s).log.events[k] == r.log.events[k],
        forall|k: Seq<u8>|
            pull(r, s).log.events.contains_key(k) && !r.log.events.contains_key(k) ==> #[trigger] pull(
                r,
                s,
            ).log.events[k] == s.log.events[k],
{
    let c = clamp(r.log.clock(s.addr), s.log.log.len());
    let evs = s.log.since(c as int);
    assert forall|j: int| 0 <= j < evs.len() implies (#[trigger] evs[j]).0.len() == 16
        && s.log.events.contains_key(evs[j].0) && s.log.events[evs[j].0] == evs[j].1 by {
        assert(evs[j].0 == s.log.log[c + j]);
    }
    lemma_absorb(r.log, evs, s.log.events);
    let p = pull(r, s);
    assert forall|k: Seq<u8>| #[trigger]
        p.log.events.contains_key(k) <==> (r.log.events.contains_key(k) || exists|i: int|
            c <= i < s.log.log.len() && s.log.log[i] == k) by {
        if exists|i: int| c <= i < s.log.log.len() && s.log.log[i] == k {
            let i = choose|i: int| c <= i < s.log.log.len() && s.log.log[i] == k;
            assert(evs[i - c].0 == k);
        }
        if exists|j: int| 0 <= j < evs.len() && evs[j].0 == k {
            let j = choose|j: int| 0 <= j < evs.len() && evs[j].0 == k;
            assert(s.log.log[c + j] == k);
        }
    }
}

/// Merging twice leaves both replicas with the events that merging once
/// gave them.
pub proof fn lemma_merge_idempotent(a: ReplicaModel, b: ReplicaModel)
    requires
        a.log.wf(),
        b.log.wf(),
    ensures
        merged(merged(a, b).0, merged(a, b).1).0.log.events == merged(a, b).0.log.events,
        merged(merged(a, b).0, merged(a, b).1).1.log.events == merged(a, b).1.log.events,
{
    if a.addr != b.addr {
        let b1 = pull(b, a);
        lemma_pull(b, a);
        let a1 = pull(a, b1);
        lemma_pull(a, b1);
        let b2 = pull(b1, a1);
        lemma_pull(b1, a1);
        assert(b1.log.clock(a.addr) == a.log.log.len());
        assert(b2.log.events =~= b1.log.events) by {
            assert forall|k: Seq<u8>| b2.log.events.contains_key(k) implies b1.log.events.contains_key(
                k,
            ) by {
                if !b1.log.events.contains_key(k) {
                    let i = choose|i: int|
                        a.log.log.len() <= i < a1.log.log.len() && a1.log.log[i] == k;
                    assert(b1.log.events.contains_key(a1.log.log[i]));
                }
            }
        }
        let a2 = pull(a1, b2);
        lemma_pull(a1, b2);
        assert(a1.log.clock(b.addr) == b1.log.log.len());
        assert(a2.log.events =~= a1.log.events) by {
            assert forall|k: Seq<u8>| a2.log.events.contains_key(k) implies a1.log.events.contains_key(
                k,
            ) by {
                if !a1.log.events.contains_key(k) {
                    let i = choose|i: int|
                        b1.log.log.len() <= i < b2.log.log.len() && b2.log.log[i] == k;
                    assert(a1.log.events.contains_key(b2.log.log[i]));
                }
            }
        }
    }
}

proof fn lemma_pull_after_pull(a: ReplicaModel, b: ReplicaModel)
    requires
        a.log.wf(),
        b.log.wf(),
        a.addr != b.addr,
        a.log.clock(b.addr) <= b.log.log.len(),
        b.log.clock(a.addr) <= a.log.log.len(),
    ensures
        pull(a, pull(b, a)).log.events == pull(a, b).log.events,
{
    let b1 = pull(b, a);
    lemma_pull(b, a);
    lemma_pull(a, b1);
    lemma_pull(a, b);
    let x = pull(a, b1);
    let y = pull(a, b);
    let c = a.log.clock(b.addr);
    assert forall|k: Seq<u8>| #[trigger] x.log.events.contains_key(k) implies y.log.events.contains_key(
        k,
    ) && x.log.events[k] == y.log.events[k] by {
        if !a.log.events.contains_key(k) {
            let i = choose|i: int| c <= i < b1.log.log.len() && b1.log.log[i] == k;
            if i >= b.log.log.len() {
                assert(a.log.events.contains_key(b1.log.log[i]));
            }
            assert(b1.log.log.subrange(0, b.log.log.len() as int)[i] == b1.log.log[i]);
            assert(b.log.log[i] == k);
            assert(b.log.events.contains_key(k));
        }
    }
    assert forall|k: Seq<u8>| #[trigger] y.log.events.contains_key(k) implies x.log.events.contains_key(
        k,
    ) by {
        if !a.log.events.contains_key(k) {
            let i = choose|i: int| c <= i < b.log.log.len() && b.log.log[i] == k;
            assert(b1.log.log.subrange(0, b.log.log.len() as int)[i] == b1.log.log[i]);
            assert(b1.log.log[i] == k);
        }
    }
    assert(x.log.events =~= y.log.events);
}

/// Merging `a` with `b` gives each side the events that merging `b` with `a`
/// gives it, when neither replica's clock for the other passes the end of the
/// other's append log.
pub proof fn lemma_merge_commutative(a: ReplicaModel, b: ReplicaModel)
    requires
        a.log.wf(),
        b.log.wf(),
        a.log.clock(b.addr) <= b.log.log.len(),
        b.log.clock(a.addr) <= a.log.log.len(),
    ensures
        merged(a, b).0.log.events == merged(b, a).1.log.events,
        merged(a, b).1.log.events == merged(b, a).0.log.events,
{
    if a.addr != b.addr {
        lemma_pull_after_pull(a, b);
        lemma_pull_after_pull(b, a);
    }
}

/// With true clocks and agreeing values, a pull gives the receiver the
/// sender's events joined to its own.
proof fn lemma_pull_full(r: ReplicaModel, s: ReplicaModel)
    requires
        r.log.wf(),
        s.log.wf(),
        r.addr != s.addr,
        knows(r, s),
        agree(r, s),
    ensures
        pull(r, s).log.events == join(r.log.events, s.log.events),
{
    lemma_pull(r, s);
    let p = pull(r, s);
    assert forall|k: Seq<u8>| #[trigger] s.log.events.contains_key(k) implies p.log.events.contains_key(
        k,
    ) by {
        let i = choose|i: int| 0 <= i < s.log.log.len() && s.log.log[i] == k;
        if i < r.log.clock(s.addr) {
            assert(r.log.events.contains_key(s.log.log[i]));
        }
    }
    assert(p.log.events =~= join(r.log.events, s.log.events));
}

/// With true clocks both ways and agreeing values, a merge leaves both
/// replicas with the join of their events, and the clocks they keep for
/// third replicas stay true.
proof fn lemma_merge_full(a: ReplicaModel, b: ReplicaModel)
    requires
        a.log.wf(),
        b.log.wf(),
        a.addr != b.addr,
        knows(a, b),
        knows(b, a),
        agree(a, b),
    ensures
        merged(a, b).0.log.events == join(a.log.events, b.log.events),
        merged(a, b).1.log.events == join(a.log.events, b.log.events),
        merged(a, b).0.log.wf(),
        merged(a, b).1.log.wf(),
        merged(a, b).0.addr == a.addr,
        merged(a, b).1.addr == b.addr,
        merged(a, b).0.log.log.subrange(0, a.log.log.len() as int) == a.log.log,
        merged(a, b).1.log.log.subrange(0, b.log.log.len() as int) == b.log.log,
        merged(a, b).0.log.clocks == a.log.clocks.insert(b.addr, merged(a, b).1.log.log.len()),
        merged(a, b).1.log.clocks == b.log.clocks.insert(a.addr, a.log.log.len()),
        merged(a, b).0.log.log.len() >= a.log.log.len(),
        merged(a, b).1.log.log.len() >= b.log.log.len(),
{
    let b1 = pull(b, a);
    lemma_pull_full(b, a);
    lemma_pull(b, a);
    assert(knows(a, b1)) by {
        assert forall|i: int| 0 <= i < a.log.clock(b1.addr) implies a.log.events.contains_key(
            #[trigger] b1.log.log[i],
        ) by {
            assert(b1.log.log.subrange(0, b.log.log.len() as int)[i] == b1.log.log[i]);
            assert(a.log.events.contains_key(b.log.log[i]));
        }
    }
    lemma_pull_full(a, b1);
    lemma_pull(a, b1);
    assert(join(a.log.events, join(b.log.events, a.log.events)) =~= join(a.log.events, b.log.events));
    assert(join(b.log.events, a.log.events) =~= join(a.log.events, b.log.events));
}

proof fn lemma_knows_after_merge(x: ReplicaModel, y: ReplicaModel, z: ReplicaModel)
    requires
        x.log.wf(),
        y.log.wf(),
        z.log.wf(),
        x.addr != y.addr,
        y.addr != z.addr,
        x.addr != z.addr,
        knows(x, y),
        knows(y, x),
        agree(x, y),
        knows(x, z),
        knows(z, x),
        knows(y, z),
        knows(z, y),
        agree(x, z),
        agree(y, z),
    ensures
        knows(merged(x, y).0, z),
        knows(z, merged(x, y).0),
        agree(merged(x, y).0, z),
        knows(merged(x, y).1, z),
        knows(z, merged(x, y).1),
        agree(merged(x, y).1, z),
{
    lemma_merge_full(x, y);
    let x1 = merged(x, y).0;
    let y1 = merged(x, y).1;
    assert(x1.log.clock(z.addr) == x.log.clock(z.addr));
    assert(y1.log.clock(z.addr) == y.log.clock(z.addr));
    assert forall|i: int| 0 <= i < z.log.clock(x1.addr) implies z.log.events.contains_key(
        #[trigger] x1.log.log[i],
    ) by {
        assert(x1.log.log.subrange(0, x.log.log.len() as int)[i] == x1.log.log[i]);
        assert(z.log.events.contains_key(x.log.log[i]));
    }
    assert forall|i: int| 0 <= i < z.log.clock(y1.addr) implies z.log.events.contains_key(
        #[trigger] y1.log.log[i],
    ) by {
        assert(y1.log.log.subrange(0, y.log.log.len() as int)[i] == y1.log.log[i]);
        assert(z.log.events.contains_key(y.log.log[i]));
    }
}

/// Merging `a` with `b` and then with `c` gives `a` the events that merging
/// `b` with `c` and then `a` with `b` gives it, for replicas at distinct
/// addresses whose clocks for each other are true and whose values agree.
pub proof fn lemma_merge_associative(a: ReplicaModel, b: ReplicaModel, c: ReplicaModel)
    requires
        a.log.wf(),
        b.log.wf(),
        c.log.wf(),
        a.addr != b.addr,
        b.addr != c.addr,
        a.addr != c.addr,
        knows(a, b),
        knows(b, a),
        knows(a, c),
        knows(c, a),
        knows(b, c),
        knows(c, b),
        agree(a, b),
        agree(a, c),
        agree(b, c),
    ensures
        merged(merged(a, b).0, c).0.log.events == merged(a, merged(b, c).0).0.log.events,
{
    lemma_merge_full(a, b);
    lemma_knows_after_merge(a, b, c);
    lemma_merge_full(merged(a, b).0, c);
    lemma_merge_full(b, c);
    lemma_knows_after_merge(b, c, a);
    let b1 = merged(b, c).0;
    assert(knows(a, b1)) by {
        assert forall|i: int| 0 <= i < a.log.clock(b1.addr) implies a.log.events.contains_key(
            #[trigger] b1.log.log[i],
        ) by {
            assert(b1.log.log.subrange(0, b.log.log.len() as int)[i] == b1.log.log[i]);
            assert(a.log.events.contains_key(b.log.log[i]));
        }
    }
    assert(knows(b1, a));
    assert(agree(a, b1));
    lemma_merge_full(a, b1);
    assert(join(join(a.log.events, b.log.events), c.log.events) =~= join(
        a.log.events,
        join(b.log.events, c.log.events),
    ));
}

} // verus!
