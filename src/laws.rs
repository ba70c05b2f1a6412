//! Properties of admission, stated over the tracker's model.

use vstd::prelude::*;
use crate::direct::{position_of, AcceptIncoming, RejectIncoming, TrackerModel};
use crate::primitives::{CandidateHash, ValidatorIndex};

verus! {

/// The state and the verdicts after `sender` relays each of `hs` in turn on
/// behalf of `originator`.
pub open spec fn receive_all(
    m: TrackerModel,
    sender: ValidatorIndex,
    originator: ValidatorIndex,
    hs: Seq<CandidateHash>,
) -> (TrackerModel, Seq<Result<AcceptIncoming, RejectIncoming>>)
    decreases hs.len(),
{
    if hs.len() == 0 {
        (m, Seq::empty())
    } else {
        let (m1, rs) = receive_all(m, sender, originator, hs.drop_last());
        let (m2, r) = m1.receive_seconded(sender, originator, hs.last());
        (m2, rs.push(r))
    }
}

/// A statement naming a sender or an originator that is us, or that is not
/// in the group, is rejected as `NotInGroup` and changes nothing.
pub proof fn lemma_outside_group_unchanged(
    m: TrackerModel,
    sender: ValidatorIndex,
    originator: ValidatorIndex,
    h: CandidateHash,
)
    requires
        position_of(m.group, sender) is None || position_of(m.group, sender) == Some(m.own)
            || position_of(m.group, originator) is None || position_of(m.group, originator) == Some(
            m.own,
        ),
    ensures
        m.receive_seconded(sender, originator, h) == (
            m,
            Err::<AcceptIncoming, RejectIncoming>(RejectIncoming::NotInGroup),
        ),
{
}

/// While a sender's row for an originator has room, a candidate new to that
/// row is taken into it and passes the sender's quota: it is accepted unless
/// the originator's own quota is spent. Once the row is full, a candidate new
/// to it is rejected as `PeerExcess` and changes nothing.
pub proof fn lemma_peer_quota(
    m: TrackerModel,
    sender: ValidatorIndex,
    originator: ValidatorIndex,
    h: CandidateHash,
)
    requires
        m.resolves(sender, originator),
    ensures
        ({
            let s = position_of(m.group, sender)->Some_0;
            let o = position_of(m.group, originator)->Some_0;
            let row = m.claims[(s, o)];
            let known = m.known[o];
            let (m2, r) = m.receive_seconded(sender, originator, h);
            &&& !row.contains(h) && row.len() < m.limit ==> {
                &&& m2.claims[(s, o)] == row.push(h)
                &&& r != Err::<AcceptIncoming, RejectIncoming>(RejectIncoming::PeerExcess)
                &&& r is Ok <==> known.contains(h) || known.len() < m.limit
            }
            &&& !row.contains(h) && row.len() == m.limit ==> {
                &&& m2 == m
                &&& r == Err::<AcceptIncoming, RejectIncoming>(RejectIncoming::PeerExcess)
            }
        }),
{
    let s = position_of(m.group, sender)->Some_0;
    let o = position_of(m.group, originator)->Some_0;
    let row = m.claims[(s, o)];
    let m1 = TrackerModel { claims: m.claims.insert((s, o), row.push(h)), ..m };
    assert(m1.accept(o, h).0.claims == m1.claims);
}

/// From a fresh row and a fresh originator quota, a sender relaying distinct
/// candidates for one originator has the first `limit` of them accepted as
/// new, and every later one rejected as `PeerExcess`.
pub proof fn lemma_peer_quota_run(
    m: TrackerModel,
    sender: ValidatorIndex,
    originator: ValidatorIndex,
    hs: Seq<CandidateHash>,
)
    requires
        m.resolves(sender, originator),
        m.claims[(position_of(m.group, sender)->Some_0, position_of(m.group, originator)->Some_0)].len()
            == 0,
        m.known[position_of(m.group, originator)->Some_0].len() == 0,
        hs.no_duplicates(),
    ensures
        ({
            let (m2, rs) = receive_all(m, sender, originator, hs);
            &&& rs.len() == hs.len()
            &&& forall|i: int|
                0 <= i < hs.len() ==> #[trigger] rs[i] == if i < m.limit {
                    Ok::<AcceptIncoming, RejectIncoming>(AcceptIncoming::YesUnknown)
                } else {
                    Err::<AcceptIncoming, RejectIncoming>(RejectIncoming::PeerExcess)
                }
        }),
{
    lemma_peer_quota_run_state(m, sender, originator, hs);
}

proof fn lemma_peer_quota_run_state(
    m: TrackerModel,
    sender: ValidatorIndex,
    originator: ValidatorIndex,
    hs: Seq<CandidateHash>,
)
    requires
        m.resolves(sender, originator),
        m.claims[(position_of(m.group, sender)->Some_0, position_of(m.group, originator)->Some_0)].len()
            == 0,
        m.known[position_of(m.group, originator)->Some_0].len() == 0,
        hs.no_duplicates(),
    ensures
        ({
            let s = position_of(m.group, sender)->Some_0;
            let o = position_of(m.group, originator)->Some_0;
            let n = if hs.len() < m.limit {
                hs.len() as int
            } else {
                m.limit as int
            };
            let (m2, rs) = receive_all(m, sender, originator, hs);
            &&& m2.group == m.group
            &&& m2.own == m.own
            &&& m2.limit == m.limit
            &&& m2.claims[(s, o)] == hs.take(n)
            &&& m2.known[o] == hs.take(n)
            &&& rs.len() == hs.len()
            &&& forall|i: int|
                0 <= i < hs.len() ==> #[trigger] rs[i] == if i < m.limit {
                    Ok::<AcceptIncoming, RejectIncoming>(AcceptIncoming::YesUnknown)
                } else {
                    Err::<AcceptIncoming, RejectIncoming>(RejectIncoming::PeerExcess)
                }
        }),
    decreases hs.len(),
{
    let s = position_of(m.group, sender)->Some_0;
    let o = position_of(m.group, originator)->Some_0;
    if hs.len() == 0 {
        assert(m.claims[(s, o)] =~= hs.take(0));
        assert(m.known[o] =~= hs.take(0));
    } else {
        let k = (hs.len() - 1) as int;
        let prefix = hs.drop_last();
        assert(prefix.no_duplicates());
        lemma_peer_quota_run_state(m, sender, originator, prefix);
        let (m1, rs) = receive_all(m, sender, originator, prefix);
        let h = hs.last();
        let (m2, r) = m1.receive_seconded(sender, originator, h);
        assert(m1.resolves(sender, originator));
        if k < m.limit {
            assert(prefix.take(k) =~= hs.take(k));
            assert(!hs.take(k).contains(h)) by {
                assert forall|j: int| 0 <= j < k implies hs.take(k)[j] != h by {
                    assert(hs[j] != hs[k]);
                }
            }
            assert(hs.take(k).push(h) =~= hs.take(k + 1));
            let m1c = TrackerModel { claims: m1.claims.insert((s, o), hs.take(k).push(h)), ..m1 };
            assert(m1c.known[o] == hs.take(k));
            assert(m2 == m1c.accept(o, h).0);
        } else {
            assert(prefix.take(m.limit as int) =~= hs.take(m.limit as int));
        }
        assert forall|i: int| 0 <= i < hs.len() implies #[trigger] rs.push(r)[i] == if i < m.limit {
            Ok::<AcceptIncoming, RejectIncoming>(AcceptIncoming::YesUnknown)
        } else {
            Err::<AcceptIncoming, RejectIncoming>(RejectIncoming::PeerExcess)
        } by {
            if i < k {
                assert(rs.push(r)[i] == rs[i]);
            }
        }
    }
}

/// A candidate that a sender has already claimed for an originator is
/// rejected as `PeerExcess` and changes nothing; so relaying the same
/// statement twice in a row never has the second one accepted.
pub proof fn lemma_resubmission_rejected(
    m: TrackerModel,
    sender: ValidatorIndex,
    originator: ValidatorIndex,
    h: CandidateHash,
)
    ensures
        m.resolves(sender, originator) && m.claims[(
            position_of(m.group, sender)->Some_0,
            position_of(m.group, originator)->Some_0,
        )].contains(h) ==> m.receive_seconded(sender, originator, h) == (
            m,
            Err::<AcceptIncoming, RejectIncoming>(RejectIncoming::PeerExcess),
        ),
        ({
            let (m1, r1) = m.receive_seconded(sender, originator, h);
            let (m2, r2) = m1.receive_seconded(sender, originator, h);
            &&& m2 == m1
            &&& r2 is Err
            &&& r1 != Err::<AcceptIncoming, RejectIncoming>(RejectIncoming::NotInGroup) ==> r2
                == Err::<AcceptIncoming, RejectIncoming>(RejectIncoming::PeerExcess)
        }),
{
    let (m1, r1) = m.receive_seconded(sender, originator, h);
    if m.resolves(sender, originator) {
        let s = position_of(m.group, sender)->Some_0;
        let o = position_of(m.group, originator)->Some_0;
        let row = m.claims[(s, o)];
        if !(row.contains(h) || row.len() >= m.limit) {
            let mc = TrackerModel { claims: m.claims.insert((s, o), row.push(h)), ..m };
            assert(m1 == mc.accept(o, h).0);
            assert(m1.claims[(s, o)] == row.push(h));
            assert(row.push(h)[row.len() as int] == h);
            assert(m1.claims[(s, o)].contains(h));
        }
    }
}

/// Once an originator has `limit` accepted candidates, any other candidate
/// for it is rejected, whoever relays it: as `OriginatorExcess` where the
/// sender's row has room (the claim still counts against that row), and as
/// `PeerExcess` where it has not.
pub proof fn lemma_originator_quota(
    m: TrackerModel,
    sender: ValidatorIndex,
    originator: ValidatorIndex,
    h: CandidateHash,
)
    requires
        m.resolves(sender, originator),
        m.known[position_of(m.group, originator)->Some_0].len() == m.limit,
        !m.known[position_of(m.group, originator)->Some_0].contains(h),
    ensures
        ({
            let s = position_of(m.group, sender)->Some_0;
            let o = position_of(m.group, originator)->Some_0;
            let row = m.claims[(s, o)];
            let (m2, r) = m.receive_seconded(sender, originator, h);
            &&& r is Err
            &&& m2.known == m.known
            &&& !row.contains(h) && row.len() < m.limit ==> {
                &&& r == Err::<AcceptIncoming, RejectIncoming>(RejectIncoming::OriginatorExcess)
                &&& m2.claims[(s, o)] == row.push(h)
            }
        }),
{
}

/// Nothing recorded is ever evicted: after any statement, every sender's row
/// and every originator's accepted row still begins with what it held before.
pub proof fn lemma_rows_only_grow(
    m: TrackerModel,
    sender: ValidatorIndex,
    originator: ValidatorIndex,
    h: CandidateHash,
)
    ensures
        ({
            let (m2, r) = m.receive_seconded(sender, originator, h);
            &&& m2.group == m.group
            &&& m2.own == m.own
            &&& m2.limit == m.limit
            &&& forall|s: int, o: int|
                #![trigger m2.claims[(s, o)]]
                m.claims[(s, o)].len() <= m2.claims[(s, o)].len() && m2.claims[(s, o)].take(
                    m.claims[(s, o)].len() as int,
                ) == m.claims[(s, o)]
            &&& forall|o: int|
                #![trigger m2.known[o]]
                m.known[o].len() <= m2.known[o].len() && m2.known[o].take(m.known[o].len() as int)
                    == m.known[o]
        }),
{
    let (m2, r) = m.receive_seconded(sender, originator, h);
    assert forall|s: int, o: int| #![trigger m2.claims[(s, o)]] true implies m.claims[(s, o)].len()
        <= m2.claims[(s, o)].len() && m2.claims[(s, o)].take(m.claims[(s, o)].len() as int)
        == m.claims[(s, o)] by {
        assert(m2.claims[(s, o)].take(m.claims[(s, o)].len() as int) =~= m.claims[(s, o)]);
    }
    assert forall|o: int| #![trigger m2.known[o]] true implies m.known[o].len() <= m2.known[o].len()
        && m2.known[o].take(m.known[o].len() as int) == m.known[o] by {
        assert(m2.known[o].take(m.known[o].len() as int) =~= m.known[o]);
    }
}

} // verus!
