//! Limits on `Seconded` statements sent directly between the members of a
//! backing group.
//!
//! Every member may relay up to `seconding_limit` distinct candidates on
//! behalf of every member, and every member may have up to `seconding_limit`
//! distinct candidates accepted locally, whoever relayed them. Both quotas are
//! held in flat, preallocated slot vectors and are never freed.

use vstd::prelude::*;
use crate::primitives::{CandidateHash, ValidatorIndex};

verus! {

/// Incoming `Seconded` message was rejected.
#[derive(Clone, Copy, PartialEq, Eq, Structural, Debug)]
pub enum RejectIncoming {
    /// Peer sent excessive messages.
    PeerExcess,
    /// Originator sent excessive messages, peer seems innocent.
    OriginatorExcess,
    /// Sender or originator is not in the group.
    NotInGroup,
}

/// Incoming `Seconded` message was accepted.
#[derive(Clone, Copy, PartialEq, Eq, Structural, Debug)]
pub enum AcceptIncoming {
    /// The `Seconded` statement was within the peer's limits and unknown
    /// for the originator.
    YesUnknown,
    /// The `Seconded` statement was within the peer's limits and already
    /// known for the originator.
    YesKnown,
}

/// The mathematical state of a tracker.
///
/// Positions are group-local. `claims[(s, o)]` lists, in order of arrival, the
/// distinct candidates that the member at position `s` has claimed on behalf
/// of the member at position `o`; `known[o]` lists the distinct candidates
/// accepted for the member at position `o`.
pub struct TrackerModel {
    pub group: Seq<ValidatorIndex>,
    pub own: int,
    pub limit: nat,
    pub claims: Map<(int, int), Seq<CandidateHash>>,
    pub known: Map<int, Seq<CandidateHash>>,
}

impl TrackerModel {
    /// A position of the group whose member can originate statements.
    pub open spec fn is_member(self, o: int) -> bool {
        0 <= o < self.group.len()
    }

    /// A position of the group whose member can send to us: anyone but us.
    pub open spec fn is_sender(self, s: int) -> bool {
        self.is_member(s) && s != self.own
    }

    /// The state of a tracker that has seen nothing yet.
    pub open spec fn initial(group: Seq<ValidatorIndex>, own: int, limit: nat) -> TrackerModel {
        TrackerModel {
            group,
            own,
            limit,
            claims: Map::new(|p: (int, int)| true, |p: (int, int)| Seq::empty()),
            known: Map::new(|o: int| true, |o: int| Seq::empty()),
        }
    }

    /// Every row stays within the limit and holds each candidate once.
    pub open spec fn inv(self) -> bool {
        &&& self.is_member(self.own)
        &&& forall|s: int, o: int|
            #![trigger self.claims[(s, o)]]
            self.is_sender(s) && self.is_member(o) ==> {
                &&& self.claims.dom().contains((s, o))
                &&& self.claims[(s, o)].len() <= self.limit
                &&& self.claims[(s, o)].no_duplicates()
            }
        &&& forall|o: int|
            #![trigger self.known[o]]
            self.is_member(o) ==> {
                &&& self.known.dom().contains(o)
                &&& self.known[o].len() <= self.limit
                &&& self.known[o].no_duplicates()
            }
    }

    /// Both `sender` and `originator` resolve to members of the group other
    /// than us.
    pub open spec fn resolves(self, sender: ValidatorIndex, originator: ValidatorIndex) -> bool {
        &&& position_of(self.group, sender) is Some
        &&& position_of(self.group, sender)->Some_0 != self.own
        &&& position_of(self.group, originator) is Some
        &&& position_of(self.group, originator)->Some_0 != self.own
    }

    /// The second stage of admission: record `h` as known for the member at
    /// position `o`, if there is room.
    pub open spec fn accept(self, o: int, h: CandidateHash) -> (
        TrackerModel,
        Result<AcceptIncoming, RejectIncoming>,
    ) {
        let row = self.known[o];
        if row.contains(h) {
            (self, Ok(AcceptIncoming::YesKnown))
        } else if row.len() < self.limit {
            (
                TrackerModel { known: self.known.insert(o, row.push(h)), ..self },
                Ok(AcceptIncoming::YesUnknown),
            )
        } else {
            (self, Err(RejectIncoming::OriginatorExcess))
        }
    }

    /// The state after `sender` relays a `Seconded` statement for `h` on
    /// behalf of `originator`, and the verdict. The claim must first fit in
    /// the sender's row for the originator, where it is recorded; only then
    /// does the originator's accepted row decide the verdict.
    pub open spec fn receive_seconded(
        self,
        sender: ValidatorIndex,
        originator: ValidatorIndex,
        h: CandidateHash,
    ) -> (TrackerModel, Result<AcceptIncoming, RejectIncoming>) {
        if !self.resolves(sender, originator) {
            (self, Err(RejectIncoming::NotInGroup))
        } else {
            let s = position_of(self.group, sender)->Some_0;
            let o = position_of(self.group, originator)->Some_0;
            let row = self.claims[(s, o)];
            if row.contains(h) || row.len() >= self.limit {
                (self, Err(RejectIncoming::PeerExcess))
            } else {
                TrackerModel { claims: self.claims.insert((s, o), row.push(h)), ..self }.accept(o, h)
            }
        }
    }
}

/// `i` is the first position at which `v` occurs in `group`.
pub open spec fn is_first_at(group: Seq<ValidatorIndex>, v: ValidatorIndex, i: int) -> bool {
    &&& 0 <= i < group.len()
    &&& group[i] == v
    &&& forall|j: int| 0 <= j < i ==> group[j] != v
}

/// The group-local position of `v`: the first position at which it occurs.
pub open spec fn position_of(group: Seq<ValidatorIndex>, v: ValidatorIndex) -> Option<int> {
    if exists|i: int| is_first_at(group, v, i) {
        Some(choose|i: int| is_first_at(group, v, i))
    } else {
        None
    }
}

/// The first position at which `validator` occurs in `validators`.
fn index_in_group(validators: &Vec<ValidatorIndex>, validator: ValidatorIndex) -> (r: Option<
    usize,
>)
    ensures
        match r {
            Some(i) => position_of(validators@, validator) == Some(i as int),
            None => position_of(validators@, validator) is None,
        },
        r is Some <==> validators@.contains(validator),
{
    let mut i: usize = 0;
    while i < validators.len()
        invariant
            0 <= i <= validators@.len(),
            forall|j: int| 0 <= j < i ==> validators@[j] != validator,
        decreases validators@.len() - i,
    {
        if validators[i] == validator {
            assert(is_first_at(validators@, validator, i as int));
            let ghost k = choose|k: int| is_first_at(validators@, validator, k);
            assert(k == i as int);
            return Some(i);
        }
        i = i + 1;
    }
    assert(forall|k: int| !is_first_at(validators@, validator, k));
    None
}

/// Appending a candidate that a row does not hold keeps its entries distinct.
proof fn lemma_push_fresh(row: Seq<CandidateHash>, h: CandidateHash)
    requires
        row.no_duplicates(),
        !row.contains(h),
    ensures
        row.push(h).no_duplicates(),
        row.push(h).len() == row.len() + 1,
{
    assert forall|i: int, j: int|
        0 <= i < row.push(h).len() && 0 <= j < row.push(h).len() && i != j implies row.push(h)[i]
        != row.push(h)[j] by {
        if i == row.len() {
            assert(row[j] != h);
        } else if j == row.len() {
            assert(row[i] != h);
        }
    }
}

/// The sender axis of the incoming matrix skips our own position.
spec fn compact_sender(own: int, s: int) -> int {
    if s > own {
        s - 1
    } else {
        s
    }
}

/// Where the row of claims by `s` on behalf of `o` starts: one block of
/// `g * l` slots per sender other than us, one row of `l` slots per
/// originator within it.
spec fn incoming_base(g: int, l: int, own: int, s: int, o: int) -> int {
    compact_sender(own, s) * (g * l) + o * l
}

/// A row of `l` slots holding the entries of `row` followed by empty slots.
spec fn slots(row: Seq<CandidateHash>, l: int) -> Seq<Option<CandidateHash>> {
    Seq::new(l as nat, |i: int| if i < row.len() { Some(row[i]) } else { None })
}

proof fn lemma_row_split(a: int, b: int, i: int, j: int, l: int)
    requires
        0 <= a,
        0 <= b,
        0 <= i < l,
        0 <= j < l,
        a * l + i == b * l + j,
    ensures
        a == b,
        i == j,
{
    if a < b {
        assert(a * l + l <= b * l) by (nonlinear_arith)
            requires
                a < b,
                0 < l,
        ;
    } else if b < a {
        assert(b * l + l <= a * l) by (nonlinear_arith)
            requires
                b < a,
                0 < l,
        ;
    }
}

proof fn lemma_row_in_block(a: int, l: int, n: int)
    requires
        0 <= a < n,
        0 <= l,
    ensures
        0 <= a * l,
        a * l + l <= n * l,
{
    assert(0 <= a * l && a * l + l <= n * l) by (nonlinear_arith)
        requires
            0 <= a < n,
            0 <= l,
    ;
}

/// An incoming row lies within the matrix.
proof fn lemma_incoming_bounds(g: int, l: int, own: int, s: int, o: int)
    requires
        0 <= own < g,
        0 <= s < g,
        s != own,
        0 <= o < g,
        0 <= l,
    ensures
        0 <= compact_sender(own, s) < g - 1,
        0 <= compact_sender(own, s) * (g * l) <= incoming_base(g, l, own, s, o),
        0 <= o * l <= incoming_base(g, l, own, s, o),
        incoming_base(g, l, own, s, o) + l <= (g - 1) * (g * l),
{
    let c = compact_sender(own, s);
    assert(c * (g * l) + o * l == (c * g + o) * l) by (nonlinear_arith);
    lemma_row_in_block(c, g, g - 1);
    lemma_row_in_block(c * g + o, l, (g - 1) * g);
    assert(0 <= c * (g * l) && 0 <= o * l) by (nonlinear_arith)
        requires
            0 <= c,
            0 <= o,
            0 <= g,
            0 <= l,
    ;
    assert((g - 1) * g * l == (g - 1) * (g * l)) by (nonlinear_arith);
}

/// Distinct incoming rows do not share a slot.
proof fn lemma_incoming_disjoint(
    g: int,
    l: int,
    own: int,
    s: int,
    o: int,
    i: int,
    s2: int,
    o2: int,
    j: int,
)
    requires
        0 <= own < g,
        0 <= s < g,
        s != own,
        0 <= o < g,
        0 <= i < l,
        0 <= s2 < g,
        s2 != own,
        0 <= o2 < g,
        0 <= j < l,
        incoming_base(g, l, own, s2, o2) + j == incoming_base(g, l, own, s, o) + i,
    ensures
        s2 == s,
        o2 == o,
        j == i,
{
    let c = compact_sender(own, s);
    let c2 = compact_sender(own, s2);
    assert(c * (g * l) + o * l == (c * g + o) * l) by (nonlinear_arith);
    assert(c2 * (g * l) + o2 * l == (c2 * g + o2) * l) by (nonlinear_arith);
    lemma_row_split(c2 * g + o2, c * g + o, j, i, l);
    lemma_row_split(c2, c, o2, o, g);
}

/// Tracks the `Seconded` statements received directly from the members of a
/// backing group, and bounds them.
pub struct DirectInGroup {
    validators: Vec<ValidatorIndex>,
    our_index: usize,
    seconding_limit: usize,
    // Flat `(group size - 1) x group size x seconding_limit` matrix: for each
    // sender but us, for each originator, the candidates claimed so far. The
    // rows of distinct (sender, originator) pairs never share a slot.
    incoming: Vec<Option<CandidateHash>>,
    // Flat `group size x seconding_limit` matrix: for each originator, the
    // candidates accepted so far.
    accepted: Vec<Option<CandidateHash>>,
    claims: Ghost<Map<(int, int), Seq<CandidateHash>>>,
    known: Ghost<Map<int, Seq<CandidateHash>>>,
}

impl View for DirectInGroup {
    type V = TrackerModel;

    closed spec fn view(&self) -> TrackerModel {
        TrackerModel {
            group: self.validators@,
            own: self.our_index as int,
            limit: self.seconding_limit as nat,
            claims: self.claims@,
            known: self.known@,
        }
    }
}

impl DirectInGroup {
    spec fn incoming_row(&self, s: int, o: int) -> Seq<Option<CandidateHash>> {
        let base = incoming_base(
            self.validators@.len() as int,
            self.seconding_limit as int,
            self.our_index as int,
            s,
            o,
        );
        self.incoming@.subrange(base, base + self.seconding_limit)
    }

    spec fn accepted_row(&self, o: int) -> Seq<Option<CandidateHash>> {
        let base = o * self.seconding_limit;
        self.accepted@.subrange(base, base + self.seconding_limit)
    }

    /// The slot matrices hold exactly the rows of the model.
    pub closed spec fn wf(&self) -> bool {
        let g = self.validators@.len() as int;
        let l = self.seconding_limit as int;
        &&& self@.inv()
        &&& self.incoming@.len() == (g - 1) * (g * l)
        &&& self.accepted@.len() == g * l
        &&& self.incoming@.len() <= usize::MAX
        &&& self.accepted@.len() <= usize::MAX
        &&& forall|s: int, o: int|
            #![trigger self.incoming_row(s, o)]
            self@.is_sender(s) && self@.is_member(o) ==> self.incoming_row(s, o) == slots(
                self.claims@[(s, o)],
                l,
            )
        &&& forall|o: int|
            #![trigger self.accepted_row(o)]
            self@.is_member(o) ==> self.accepted_row(o) == slots(self.known@[o], l)
    }

    /// The group-local position of `validator`.
    fn index_in_group(&self, validator: ValidatorIndex) -> (r: Option<usize>)
        ensures
            match r {
                Some(i) => position_of(self.validators@, validator) == Some(i as int),
                None => position_of(self.validators@, validator) is None,
            },
    {
        index_in_group(&self.validators, validator)
    }

    /// The position of a sender on the sender axis, which skips our own.
    fn adjust_for_skipped_self(&self, index: usize) -> (r: usize)
        ensures
            r == compact_sender(self.our_index as int, index as int),
    {
        if index > self.our_index {
            index - 1
        } else {
            index
        }
    }

    /// The slots recording what `sender` has claimed on behalf of
    /// `originator`.
    fn incoming_range(&self, sender: usize, originator: usize) -> (r: std::ops::Range<usize>)
        requires
            self.wf(),
            self@.is_sender(sender as int),
            self@.is_member(originator as int),
        ensures
            r.start == incoming_base(
                self.validators@.len() as int,
                self.seconding_limit as int,
                self.our_index as int,
                sender as int,
                originator as int,
            ),
            r.end == r.start + self.seconding_limit,
            r.end <= self.incoming@.len(),
    {
        proof {
            lemma_incoming_bounds(
                self.validators@.len() as int,
                self.seconding_limit as int,
                self.our_index as int,
                sender as int,
                originator as int,
            );
        }
        let sender = self.adjust_for_skipped_self(sender);
        let block = self.validators.len() * self.seconding_limit;
        let base = sender * block + originator * self.seconding_limit;
        base..base + self.seconding_limit
    }

    /// The slots recording what we have accepted for `originator`.
    fn accepted_range(&self, originator: usize) -> (r: std::ops::Range<usize>)
        requires
            self.wf(),
            self@.is_member(originator as int),
        ensures
            r.start == originator * self.seconding_limit,
            r.end == r.start + self.seconding_limit,
            r.end <= self.accepted@.len(),
    {
        proof {
            lemma_row_in_block(
                originator as int,
                self.seconding_limit as int,
                self.validators@.len() as int,
            );
        }
        let base = originator * self.seconding_limit;
        base..base + self.seconding_limit
    }

    /// Handle an incoming `Seconded` statement for `candidate_hash`, sent by
    /// `sender` on behalf of `originator`.
    ///
    /// `sender` and `originator` are each resolved to their own position in
    /// the group: the sender's quota is kept per originator, and the accepted
    /// candidates per originator, whoever relayed them.
    ///
    /// Rejections other than `OriginatorExcess` leave the tracker as it was;
    /// `OriginatorExcess` keeps the claim counted against the sender.
    pub fn handle_incoming_seconded(
        &mut self,
        sender: ValidatorIndex,
        originator: ValidatorIndex,
        candidate_hash: CandidateHash,
    ) -> (r: Result<AcceptIncoming, RejectIncoming>)
        requires
            old(self).wf(),
        ensures
            final(self).wf(),
            final(self)@.inv(),
            (final(self)@, r) == old(self)@.receive_seconded(sender, originator, candidate_hash),
    {
        let sender_index = match self.index_in_group(sender) {
            None => return Err(RejectIncoming::NotInGroup),
            Some(i) => i,
        };
        let originator_index = match self.index_in_group(originator) {
            None => return Err(RejectIncoming::NotInGroup),
            Some(i) => i,
        };
        if sender_index == self.our_index || originator_index == self.our_index {
            return Err(RejectIncoming::NotInGroup);
        }
        let range = self.incoming_range(sender_index, originator_index);
        let ghost s = sender_index as int;
        let ghost o = originator_index as int;
        let ghost g = self.validators@.len() as int;
        let ghost l = self.seconding_limit as int;
        let ghost own = self.our_index as int;
        let ghost row = self.claims@[(s, o)];
        let ghost pre = *self;
        let ghost base = range.start as int;
        assert(pre.incoming_row(s, o) == slots(row, l));
        assert(pre@.claims[(s, o)] == row);
        assert(row.len() <= l);
        let mut i: usize = range.start;
        while i < range.end
            invariant
                *self == pre,
                pre == *old(self),
                pre.wf(),
                pre@.is_sender(s),
                pre@.is_member(o),
                o != own,
                position_of(pre.validators@, sender) == Some(s),
                position_of(pre.validators@, originator) == Some(o),
                s == sender_index,
                o == originator_index,
                g == pre.validators@.len(),
                l == pre.seconding_limit,
                own == pre.our_index,
                row == pre.claims@[(s, o)],
                row.len() <= l,
                pre.incoming_row(s, o) == slots(row, l),
                base == incoming_base(g, l, own, s, o),
                range.start == base,
                range.end == base + l,
                range.end <= pre.incoming@.len(),
                range.start <= i <= range.end,
                forall|j: int|
                    range.start <= j < i ==> pre.incoming@[j] is Some && pre.incoming@[j] != Some(
                        candidate_hash,
                    ),
            decreases range.end - i,
        {
            let ghost k = i - base;
            assert(pre.incoming_row(s, o)[k] == pre.incoming@[i as int]);
            match self.incoming[i] {
                Some(x) => {
                    if x == candidate_hash {
                        assert(row[k] == candidate_hash);
                        assert(row.contains(candidate_hash));
                        return Err(RejectIncoming::PeerExcess);
                    }
                },
                None => {
                    proof {
                        if k > 0 {
                            assert(pre.incoming_row(s, o)[k - 1] == pre.incoming@[i - 1]);
                        }
                        assert(row.len() == k);
                        assert forall|j: int| 0 <= j < row.len() implies row[j] != candidate_hash by {
                            assert(pre.incoming_row(s, o)[j] == pre.incoming@[base + j]);
                        }
                    }
                    self.incoming.set(i, Some(candidate_hash));
                    self.claims = Ghost(self.claims@.insert((s, o), row.push(candidate_hash)));
                    proof {
                        lemma_push_fresh(row, candidate_hash);
                        assert forall|s2: int, o2: int|
                            self@.is_sender(s2) && self@.is_member(o2) implies self.incoming_row(
                                s2,
                                o2,
                            ) == slots(self.claims@[(s2, o2)], l) by {
                            lemma_incoming_bounds(g, l, own, s2, o2);
                            assert(pre.incoming_row(s2, o2) == slots(pre.claims@[(s2, o2)], l));
                            if s2 == s && o2 == o {
                                assert forall|j: int| 0 <= j < l implies self.incoming_row(s, o)[j]
                                    == slots(row.push(candidate_hash), l)[j] by {
                                    if j != k {
                                        assert(pre.incoming_row(s, o)[j] == slots(row, l)[j]);
                                    }
                                }
                                assert(self.incoming_row(s2, o2) =~= slots(
                                    self.claims@[(s2, o2)],
                                    l,
                                ));
                            } else {
                                assert forall|j: int| 0 <= j < l implies self.incoming_row(
                                    s2,
                                    o2,
                                )[j] == pre.incoming_row(s2, o2)[j] by {
                                    if incoming_base(g, l, own, s2, o2) + j == i {
                                        lemma_incoming_disjoint(g, l, own, s, o, k, s2, o2, j);
                                    }
                                }
                                assert(self.incoming_row(s2, o2) =~= pre.incoming_row(s2, o2));
                            }
                        }
                        assert forall|o2: int| self@.is_member(o2) implies self.accepted_row(o2)
                            == slots(self.known@[o2], l) by {
                            assert(pre.accepted_row(o2) == slots(pre.known@[o2], l));
                        }
                        assert forall|s2: int, o2: int|
                            self@.is_sender(s2) && self@.is_member(o2) implies {
                            &&& #[trigger] self@.claims.dom().contains((s2, o2))
                            &&& self@.claims[(s2, o2)].len() <= self@.limit
                            &&& self@.claims[(s2, o2)].no_duplicates()
                        } by {
                            assert(pre@.claims[(s2, o2)] == pre.claims@[(s2, o2)]);
                        }
                        assert forall|o2: int| #[trigger] self@.is_member(o2) implies {
                            &&& self@.known.dom().contains(o2)
                            &&& self@.known[o2].len() <= self@.limit
                            &&& self@.known[o2].no_duplicates()
                        } by {
                            assert(pre@.known[o2] == self@.known[o2]);
                        }
                        assert(self@.inv());
                        assert(self@ == TrackerModel {
                            claims: pre@.claims.insert((s, o), row.push(candidate_hash)),
                            ..pre@
                        });
                    }
                    return self.handle_accepted_incoming(originator_index, candidate_hash);
                },
            }
            i = i + 1;
        }
        proof {
            if l > 0 {
                assert(pre.incoming_row(s, o)[l - 1] == pre.incoming@[base + l - 1]);
            }
            assert forall|j: int| 0 <= j < row.len() implies row[j] != candidate_hash by {
                assert(pre.incoming_row(s, o)[j] == pre.incoming@[base + j]);
            }
        }
        Err(RejectIncoming::PeerExcess)
    }

    /// Record `candidate_hash` as accepted for the member at position
    /// `originator`, if it is new and there is room.
    fn handle_accepted_incoming(&mut self, originator: usize, candidate_hash: CandidateHash) -> (r:
        Result<AcceptIncoming, RejectIncoming>)
        requires
            old(self).wf(),
            old(self)@.is_member(originator as int),
        ensures
            final(self).wf(),
            (final(self)@, r) == old(self)@.accept(originator as int, candidate_hash),
    {
        let range = self.accepted_range(originator);
        let ghost o = originator as int;
        let ghost l = self.seconding_limit as int;
        let ghost row = self.known@[o];
        let ghost pre = *self;
        assert(pre.accepted_row(o) == slots(row, l));
        assert(pre@.known[o] == row);
        assert(row.len() <= l);
        let mut i: usize = range.start;
        while i < range.end
            invariant
                *self == pre,
                pre == *old(self),
                pre.wf(),
                pre@.is_member(o),
                o == originator,
                l == pre.seconding_limit,
                row == pre.known@[o],
                pre.accepted_row(o) == slots(row, l),
                range.start == o * l,
                range.end == o * l + l,
                range.end <= pre.accepted@.len(),
                range.start <= i <= range.end,
                forall|j: int|
                    range.start <= j < i ==> pre.accepted@[j] is Some && pre.accepted@[j] != Some(
                        candidate_hash,
                    ),
            decreases range.end - i,
        {
            let ghost k = i - o * l;
            assert(pre.accepted_row(o)[k] == pre.accepted@[i as int]);
            match self.accepted[i] {
                Some(x) => {
                    if x == candidate_hash {
                        assert(row[k] == candidate_hash);
                        return Ok(AcceptIncoming::YesKnown);
                    }
                },
                None => {
                    proof {
                        if k > 0 {
                            assert(pre.accepted_row(o)[k - 1] == pre.accepted@[i - 1]);
                        }
                        assert(row.len() == k);
                        assert forall|j: int| 0 <= j < row.len() implies row[j] != candidate_hash by {
                            assert(pre.accepted_row(o)[j] == pre.accepted@[o * l + j]);
                        }
                    }
                    self.accepted.set(i, Some(candidate_hash));
                    self.known = Ghost(self.known@.insert(o, row.push(candidate_hash)));
                    proof {
                        let g = pre.validators@.len() as int;
                        assert forall|o2: int| self@.is_member(o2) implies self.accepted_row(o2)
                            == slots(self.known@[o2], l) by {
                            lemma_row_in_block(o2, l, g);
                            assert(pre.accepted_row(o2) == slots(pre.known@[o2], l));
                            if o2 == o {
                                assert forall|j: int| 0 <= j < l implies self.accepted_row(o)[j]
                                    == slots(row.push(candidate_hash), l)[j] by {
                                    if j != k {
                                        assert(pre.accepted_row(o)[j] == slots(row, l)[j]);
                                    }
                                }
                                assert(self.accepted_row(o2) =~= slots(self.known@[o2], l));
                            } else {
                                assert forall|j: int| 0 <= j < l implies self.accepted_row(o2)[j]
                                    == pre.accepted_row(o2)[j] by {
                                    if o2 * l + j == i {
                                        lemma_row_split(o2, o, j, k, l);
                                    }
                                }
                                assert(self.accepted_row(o2) =~= pre.accepted_row(o2));
                            }
                        }
                        assert forall|s: int, o2: int|
                            self@.is_sender(s) && self@.is_member(o2) implies self.incoming_row(s, o2)
                            == slots(self.claims@[(s, o2)], l) by {
                            assert(pre.incoming_row(s, o2) == slots(pre.claims@[(s, o2)], l));
                        }
                        assert(self@ == TrackerModel {
                            known: pre@.known.insert(o, row.push(candidate_hash)),
                            ..pre@
                        });
                        lemma_push_fresh(row, candidate_hash);
                        assert forall|o2: int| #[trigger] self@.is_member(o2) implies {
                            &&& self@.known.dom().contains(o2)
                            &&& self@.known[o2].len() <= self@.limit
                            &&& self@.known[o2].no_duplicates()
                        } by {
                            assert(pre@.known[o2] == pre.known@[o2]);
                        }
                        assert forall|s: int, o2: int|
                            self@.is_sender(s) && self@.is_member(o2) implies {
                            &&& #[trigger] self@.claims.dom().contains((s, o2))
                            &&& self@.claims[(s, o2)].len() <= self@.limit
                            &&& self@.claims[(s, o2)].no_duplicates()
                        } by {
                            assert(pre@.claims[(s, o2)] == self@.claims[(s, o2)]);
                        }
                        assert(self@.inv());
                    }
                    return Ok(AcceptIncoming::YesUnknown);
                },
            }
            i = i + 1;
        }
        proof {
            if l > 0 {
                assert(pre.accepted_row(o)[l - 1] == pre.accepted@[o * l + l - 1]);
            }
            assert forall|j: int| 0 <= j < row.len() implies row[j] != candidate_hash by {
                assert(pre.accepted_row(o)[j] == pre.accepted@[o * l + j]);
            }
        }
        Err(RejectIncoming::OriginatorExcess)
    }

    /// Instantiate a new tracker for the group `group_validators`, in which we
    /// are `our_index`, allowing `seconding_limit` distinct candidates per
    /// sender and originator. Fails if `group_validators` is empty or
    /// `our_index` is not in the group.
    pub fn new(
        group_validators: Vec<ValidatorIndex>,
        our_index: ValidatorIndex,
        seconding_limit: usize,
    ) -> (r: Option<Self>)
        requires
            group_validators@.len() * group_validators@.len() * seconding_limit <= usize::MAX,
        ensures
            r is Some <==> group_validators@.len() > 0 && group_validators@.contains(our_index),
            r matches Some(t) ==> {
                &&& t.wf()
                &&& t@.inv()
                &&& t@ == TrackerModel::initial(
                    group_validators@,
                    position_of(group_validators@, our_index)->Some_0,
                    seconding_limit as nat,
                )
            },
    {
        if group_validators.len() == 0 {
            return None;
        }
        let our_position = match index_in_group(&group_validators, our_index) {
            None => return None,
            Some(i) => i,
        };
        let g = group_validators.len();
        let l = seconding_limit;
        assert(g * l <= g * g * l && (g - 1) * (g * l) <= g * g * l) by (nonlinear_arith)
            requires
                g >= 1,
        ;
        let accepted_size = g * l;
        let incoming_size = (g - 1) * accepted_size;
        let incoming: Vec<Option<CandidateHash>> = vec![None; incoming_size];
        let accepted: Vec<Option<CandidateHash>> = vec![None; accepted_size];
        let t = DirectInGroup {
            validators: group_validators,
            our_index: our_position,
            seconding_limit,
            incoming,
            accepted,
            claims: Ghost(Map::new(|p: (int, int)| true, |p: (int, int)| Seq::empty())),
            known: Ghost(Map::new(|o: int| true, |o: int| Seq::empty())),
        };
        proof {
            assert forall|s: int, o: int| t@.is_sender(s) && t@.is_member(o) implies t.incoming_row(
                s,
                o,
            ) == slots(t.claims@[(s, o)], l as int) by {
                lemma_incoming_bounds(g as int, l as int, our_position as int, s, o);
                assert(t.incoming_row(s, o) =~= slots(t.claims@[(s, o)], l as int));
            }
            assert forall|o: int| t@.is_member(o) implies t.accepted_row(o) == slots(
                t.known@[o],
                l as int,
            ) by {
                lemma_row_in_block(o, l as int, g as int);
                assert(t.accepted_row(o) =~= slots(t.known@[o], l as int));
            }
        }
        Some(t)
    }
}

} // verus!
