//! Proposal manager: owns carriers' fee bids, enforces the bidding state
//! machine (including the atomic multi-reject on acceptance) and computes
//! the final fee with its penalty decay.

use vstd::arithmetic::div_mod::lemma_div_is_ordered;
use vstd::arithmetic::mul::lemma_mul_inequality;
use vstd::arithmetic::mul::lemma_mul_nonnegative;
use vstd::prelude::*;

use crate::types::AccountId;
use crate::types::BlockNumber;
use crate::types::PackageId;
use crate::types::Proposal;
use crate::types::ProposalStatus;
use crate::types::package_id_eq;

verus! {

/// Errors of the proposal manager.
#[derive(Clone, Copy, PartialEq, Eq, Structural, Debug)]
pub enum Error {
    /// A proposal already exists from that carrier.
    ProposalExists,
    /// A proposal does not exist from that carrier.
    ProposalDoesNotExist,
    /// Proposal is not valid for the requested action.
    InvalidProposal,
}

/// Events the proposal manager emits, one per committed state change.
#[derive(Clone, Copy, PartialEq, Eq, Debug)]
pub enum Event {
    /// New proposal created.
    ProposalCreated {
        client: AccountId,
        package: PackageId,
        carrier: AccountId,
        maximum_fee: u128,
        minimum_fee: u128,
    },
    /// Proposal accepted.
    ProposalAccepted { client: AccountId, package: PackageId, carrier: AccountId },
    /// Proposal rejected.
    ProposalRejected { client: AccountId, package: PackageId, carrier: AccountId },
}

/// The proposal manager's storage.
pub struct Pallet {
    pub proposals: Vec<Proposal>,
    pub events: Vec<Event>,
}

/// `p` is the record keyed by `(client, id, carrier)`.
pub open spec fn prop_key_is(
    p: Proposal,
    client: AccountId,
    id: Seq<u8>,
    carrier: AccountId,
) -> bool {
    p.client == client && p.package@ == id && p.carrier == carrier
}

/// `p` bids on the package keyed by `(client, id)`, whoever the carrier.
pub open spec fn prop_matches_package(p: Proposal, client: AccountId, id: Seq<u8>) -> bool {
    p.client == client && p.package@ == id
}

/// No two proposals share a key.
pub open spec fn props_unique(s: Seq<Proposal>) -> bool {
    forall|i: int, j: int|
        #![trigger s[i], s[j]]
        0 <= i < j < s.len() ==> !(s[i].client == s[j].client && s[i].package@ == s[j].package@
            && s[i].carrier == s[j].carrier)
}

/// A proposal keyed by `(client, id, carrier)` exists in `s`.
pub open spec fn has_prop(s: Seq<Proposal>, client: AccountId, id: Seq<u8>, carrier: AccountId)
    -> bool {
    exists|i: int| 0 <= i < s.len() && #[trigger] prop_key_is(s[i], client, id, carrier)
}

/// A proposal keyed by `(client, id, carrier)` exists in `s` and is still
/// `Proposed`.
pub open spec fn valid_prop(s: Seq<Proposal>, client: AccountId, id: Seq<u8>, carrier: AccountId)
    -> bool {
    exists|i: int|
        0 <= i < s.len() && #[trigger] prop_key_is(s[i], client, id, carrier) && s[i].status
            == ProposalStatus::Proposed
}

/// `p` with its status replaced, all other fields kept.
pub open spec fn with_status(p: Proposal, st: ProposalStatus) -> Proposal {
    Proposal {
        package: p.package,
        client: p.client,
        carrier: p.carrier,
        maximum_fee_amount: p.maximum_fee_amount,
        minimum_fee_amount: p.minimum_fee_amount,
        penalty_period: p.penalty_period,
        penalty_amount: p.penalty_amount,
        proposed_on: p.proposed_on,
        status: st,
    }
}

/// Every bid on `(client, id)` from a carrier other than `keep_carrier`
/// flipped to `Rejected`; everything else untouched.
pub open spec fn reject_all_except(
    s: Seq<Proposal>,
    client: AccountId,
    id: Seq<u8>,
    keep_carrier: AccountId,
) -> Seq<Proposal> {
    Seq::new(
        s.len(),
        |i: int|
            if prop_matches_package(s[i], client, id) && s[i].carrier != keep_carrier {
                with_status(s[i], ProposalStatus::Rejected)
            } else {
                s[i]
            },
    )
}

/// Every bid on `(client, id)` resolved: the chosen carrier's to `Accepted`,
/// every competitor's to `Rejected`; other packages' bids untouched.
pub open spec fn resolve_proposals(
    s: Seq<Proposal>,
    client: AccountId,
    id: Seq<u8>,
    carrier: AccountId,
) -> Seq<Proposal> {
    Seq::new(
        s.len(),
        |i: int|
            if prop_matches_package(s[i], client, id) {
                if s[i].carrier == carrier {
                    with_status(s[i], ProposalStatus::Accepted)
                } else {
                    with_status(s[i], ProposalStatus::Rejected)
                }
            } else {
                s[i]
            },
    )
}

/// The rejection events that flipping every non-kept bid on `(client, id)`
/// emits, in store order.
pub open spec fn rejection_events(
    s: Seq<Proposal>,
    client: AccountId,
    id: Seq<u8>,
    keep_carrier: AccountId,
) -> Seq<Event>
    decreases s.len(),
{
    if s.len() == 0 {
        Seq::empty()
    } else {
        let pre = rejection_events(s.drop_last(), client, id, keep_carrier);
        if prop_matches_package(s.last(), client, id) && s.last().carrier != keep_carrier {
            pre.push(
                Event::ProposalRejected {
                    client,
                    package: s.last().package,
                    carrier: s.last().carrier,
                },
            )
        } else {
            pre
        }
    }
}

/// The proposals of `s` that do not bid on `(client, id)`, in order.
pub open spec fn remaining_proposals(s: Seq<Proposal>, client: AccountId, id: Seq<u8>) -> Seq<
    Proposal,
>
    decreases s.len(),
{
    if s.len() == 0 {
        Seq::empty()
    } else if prop_matches_package(s.last(), client, id) {
        remaining_proposals(s.drop_last(), client, id)
    } else {
        remaining_proposals(s.drop_last(), client, id).push(s.last())
    }
}

/// The mathematically final fee: the maximum fee less one penalty amount per
/// full penalty period elapsed between collection and delivery, floored at
/// the minimum fee.
pub open spec fn final_fee_math(
    maximum_fee_amount: u128,
    minimum_fee_amount: u128,
    penalty_period: u32,
    penalty_amount: u128,
    collected_on: BlockNumber,
    delivered_on: BlockNumber,
) -> int {
    let periods = (delivered_on - collected_on) as int / penalty_period as int;
    let penalty = periods * penalty_amount;
    if maximum_fee_amount - penalty > minimum_fee_amount {
        maximum_fee_amount - penalty
    } else {
        minimum_fee_amount as int
    }
}

/// The final fee never rises as delivery moves later, and it always lies
/// between the minimum and the maximum fee, for every positive penalty
/// period and every bid whose minimum does not exceed its maximum.
pub proof fn lemma_final_fee_monotonic_and_bounded(
    maximum_fee_amount: u128,
    minimum_fee_amount: u128,
    penalty_period: u32,
    penalty_amount: u128,
    collected_on: BlockNumber,
    delivered_early: BlockNumber,
    delivered_late: BlockNumber,
)
    requires
        penalty_period > 0,
        minimum_fee_amount <= maximum_fee_amount,
        collected_on <= delivered_early <= delivered_late,
    ensures
        final_fee_math(
            maximum_fee_amount,
            minimum_fee_amount,
            penalty_period,
            penalty_amount,
            collected_on,
            delivered_late,
        ) <= final_fee_math(
            maximum_fee_amount,
            minimum_fee_amount,
            penalty_period,
            penalty_amount,
            collected_on,
            delivered_early,
        ),
        minimum_fee_amount <= final_fee_math(
            maximum_fee_amount,
            minimum_fee_amount,
            penalty_period,
            penalty_amount,
            collected_on,
            delivered_early,
        ) <= maximum_fee_amount,
{
    let e1 = (delivered_early - collected_on) as int;
    let e2 = (delivered_late - collected_on) as int;
    let z = penalty_period as int;
    let p1 = e1 / z;
    let p2 = e2 / z;
    lemma_div_is_ordered(e1, e2, z);
    lemma_div_is_ordered(0, e1, z);
    lemma_mul_inequality(p1, p2, penalty_amount as int);
    lemma_mul_nonnegative(p1, penalty_amount as int);
    lemma_mul_nonnegative(p2, penalty_amount as int);
}

/// Rejecting every bid but one is idempotent on the stored proposals:
/// running the sweep a second time changes nothing further.
pub proof fn lemma_reject_all_except_idempotent(
    s: Seq<Proposal>,
    client: AccountId,
    id: Seq<u8>,
    keep_carrier: AccountId,
)
    ensures
        reject_all_except(reject_all_except(s, client, id, keep_carrier), client, id, keep_carrier)
            == reject_all_except(s, client, id, keep_carrier),
{
    let once = reject_all_except(s, client, id, keep_carrier);
    let twice = reject_all_except(once, client, id, keep_carrier);
    assert forall|i: int| 0 <= i < s.len() implies twice[i] == once[i] by {}
    assert(twice =~= once);
}

/// Keys are unique, so a key match pins the index.
pub proof fn lemma_prop_index_unique(
    s: Seq<Proposal>,
    client: AccountId,
    id: Seq<u8>,
    carrier: AccountId,
    i: int,
    j: int,
)
    requires
        props_unique(s),
        0 <= i < s.len(),
        0 <= j < s.len(),
        prop_key_is(s[i], client, id, carrier),
        prop_key_is(s[j], client, id, carrier),
    ensures
        i == j,
{
}

impl Pallet {
    /// Proposals are uniquely keyed.
    pub open spec fn wf(self) -> bool {
        props_unique(self.proposals@)
    }

    /// An empty manager.
    pub fn new() -> (r: Pallet)
        ensures
            r.wf(),
            r.proposals@.len() == 0,
            r.events@.len() == 0,
    {
        Pallet { proposals: Vec::new(), events: Vec::new() }
    }

    /// Index of the proposal keyed by `(client, package_id, carrier)`.
    fn find_proposal_index(&self, client: AccountId, package_id: &PackageId, carrier: AccountId)
        -> (r: Option<usize>)
        ensures
            match r {
                Some(i) => i < self.proposals@.len() && prop_key_is(
                    self.proposals@[i as int],
                    client,
                    package_id@,
                    carrier,
                ),
                None => !has_prop(self.proposals@, client, package_id@, carrier),
            },
    {
        let mut i: usize = 0;
        while i < self.proposals.len()
            invariant
                i <= self.proposals@.len(),
                forall|j: int|
                    0 <= j < i ==> !prop_key_is(
                        #[trigger] self.proposals@[j],
                        client,
                        package_id@,
                        carrier,
                    ),
            decreases self.proposals@.len() - i,
        {
            if self.proposals[i].client == client && self.proposals[i].carrier == carrier
                && package_id_eq(&self.proposals[i].package, package_id) {
                return Some(i);
            }
            i += 1;
        }
        None
    }

    /// Status of the proposal keyed by `(client, package_id, carrier)`.
    pub fn proposal_status(&self, client: AccountId, package_id: &PackageId, carrier: AccountId)
        -> (r: Option<ProposalStatus>)
        requires
            self.wf(),
        ensures
            r is Some <==> has_prop(self.proposals@, client, package_id@, carrier),
            forall|i: int|
                0 <= i < self.proposals@.len() && prop_key_is(
                    #[trigger] self.proposals@[i],
                    client,
                    package_id@,
                    carrier,
                ) ==> r == Some(self.proposals@[i].status),
    {
        match self.find_proposal_index(client, package_id, carrier) {
            Some(i) => Some(self.proposals[i].status),
            None => None,
        }
    }

    /// The proposal exists and is still open for acceptance.
    pub fn proposal_is_valid(&self, client: AccountId, package_id: &PackageId, carrier: AccountId)
        -> (r: bool)
        requires
            self.wf(),
        ensures
            r == valid_prop(self.proposals@, client, package_id@, carrier),
    {
        match self.find_proposal_index(client, package_id, carrier) {
            Some(i) => self.proposals[i].status == ProposalStatus::Proposed,
            None => false,
        }
    }

    /// Maximum fee of the proposal keyed by `(client, package_id, carrier)`.
    pub fn proposal_maximum_fee_amount(
        &self,
        client: AccountId,
        package_id: &PackageId,
        carrier: AccountId,
    ) -> (r: Option<u128>)
        requires
            self.wf(),
        ensures
            r is Some <==> has_prop(self.proposals@, client, package_id@, carrier),
            forall|i: int|
                0 <= i < self.proposals@.len() && prop_key_is(
                    #[trigger] self.proposals@[i],
                    client,
                    package_id@,
                    carrier,
                ) ==> r == Some(self.proposals@[i].maximum_fee_amount),
    {
        match self.find_proposal_index(client, package_id, carrier) {
            Some(i) => Some(self.proposals[i].maximum_fee_amount),
            None => None,
        }
    }

    /// Carrier `who` submits a bid on `(client, package_id)`.  Fails,
    /// changing nothing, exactly when a bid under that key already exists.
    pub fn proposal_create(
        &mut self,
        who: AccountId,
        client: AccountId,
        package_id: PackageId,
        maximum_fee_amount: u128,
        minimum_fee_amount: u128,
        penalty_period: u32,
        penalty_amount: u128,
        now: BlockNumber,
    ) -> (r: Result<(), Error>)
        requires
            old(self).wf(),
        ensures
            final(self).wf(),
            match r {
                Ok(()) => !has_prop(old(self).proposals@, client, package_id@, who) && final(self).proposals@ == old(self).proposals@.push(
                    (Proposal {
                        package: package_id,
                        client,
                        carrier: who,
                        maximum_fee_amount,
                        minimum_fee_amount,
                        penalty_period,
                        penalty_amount,
                        proposed_on: now,
                        status: ProposalStatus::Proposed,
                    }),
                ) && final(self).events@ == old(self).events@.push(
                    Event::ProposalCreated {
                        client,
                        package: package_id,
                        carrier: who,
                        maximum_fee: maximum_fee_amount,
                        minimum_fee: minimum_fee_amount,
                    },
                ),
                Err(Error::ProposalExists) => has_prop(
                    old(self).proposals@,
                    client,
                    package_id@,
                    who,
                ) && *final(self) == *old(self),
                Err(_) => false,
            },
    {
        if let Some(_) = self.find_proposal_index(client, &package_id, who) {
            return Err(Error::ProposalExists);
        }
        let ghost props0 = self.proposals@;
        self.proposals.push(
            Proposal::new(
                package_id,
                client,
                who,
                maximum_fee_amount,
                minimum_fee_amount,
                penalty_period,
                penalty_amount,
                now,
            ),
        );
        self.events.push(
            Event::ProposalCreated {
                client,
                package: package_id,
                carrier: who,
                maximum_fee: maximum_fee_amount,
                minimum_fee: minimum_fee_amount,
            },
        );
        proof {
            assert forall|i: int, j: int|
                #![trigger self.proposals@[i], self.proposals@[j]]
                0 <= i < j < self.proposals@.len() implies !(self.proposals@[i].client
                == self.proposals@[j].client && self.proposals@[i].package@ == self.proposals@[
                j].package@ && self.proposals@[i].carrier == self.proposals@[j].carrier) by {
                if j == self.proposals@.len() - 1 {
                    assert(prop_key_is(
                        props0[i],
                        self.proposals@[i].client,
                        self.proposals@[i].package@,
                        self.proposals@[i].carrier,
                    ));
                }
            }
        }
        Ok(())
    }

    /// Flips every bid on `(client, package_id)` from a carrier other than
    /// `carrier` to `Rejected`, emitting one rejection event per flipped
    /// record — also for records already rejected, as re-running the sweep
    /// re-announces them; the stored statuses themselves are idempotent
    /// under re-running.
    pub fn reject_proposals(&mut self, client: AccountId, package_id: &PackageId, carrier: AccountId)
        requires
            old(self).wf(),
        ensures
            final(self).wf(),
            final(self).proposals@ == reject_all_except(
                old(self).proposals@,
                client,
                package_id@,
                carrier,
            ),
            final(self).events@ == old(self).events@ + rejection_events(
                old(self).proposals@,
                client,
                package_id@,
                carrier,
            ),
    {
        let ghost props0 = self.proposals@;
        let ghost events0 = self.events@;
        let ghost target = reject_all_except(props0, client, package_id@, carrier);
        let total = self.proposals.len();
        let mut i: usize = 0;
        while i < total
            invariant
                i <= total,
                total == props0.len(),
                self.proposals@.len() == total,
                forall|j: int|
                    0 <= j < total ==> #[trigger] self.proposals@[j] == if j < i {
                        reject_all_except(props0, client, package_id@, carrier)[j]
                    } else {
                        props0[j]
                    },
                self.events@ == events0 + rejection_events(
                    props0.take(i as int),
                    client,
                    package_id@,
                    carrier,
                ),
            decreases total - i,
        {
            proof {
                assert(props0.take(i as int + 1).drop_last() =~= props0.take(i as int));
                assert(props0.take(i as int + 1).last() == props0[i as int]);
            }
            let matches = self.proposals[i].client == client && package_id_eq(
                &self.proposals[i].package,
                package_id,
            ) && self.proposals[i].carrier != carrier;
            if matches {
                let rejected_package = self.proposals[i].package;
                let rejected_carrier = self.proposals[i].carrier;
                let slot = &mut self.proposals[i];
                slot.status = ProposalStatus::Rejected;
                self.events.push(
                    Event::ProposalRejected {
                        client,
                        package: rejected_package,
                        carrier: rejected_carrier,
                    },
                );
            }
            i += 1;
        }
        proof {
            assert(props0.take(total as int) =~= props0);
            assert(self.proposals@ =~= target);
            assert forall|k: int, l: int|
                #![trigger self.proposals@[k], self.proposals@[l]]
                0 <= k < l < self.proposals@.len() implies !(self.proposals@[k].client
                == self.proposals@[l].client && self.proposals@[k].package@ == self.proposals@[
                l].package@ && self.proposals@[k].carrier == self.proposals@[l].carrier) by {
                assert(props0[k] == if prop_matches_package(props0[k], client, package_id@)
                    && props0[k].carrier != carrier {
                    with_status(self.proposals@[k], ProposalStatus::Proposed)
                } else {
                    self.proposals@[k]
                } || props0[k].client == self.proposals@[k].client);
                assert(props0[k].client == self.proposals@[k].client && props0[k].package@
                    == self.proposals@[k].package@ && props0[k].carrier == self.proposals@[
                k].carrier);
                assert(props0[l].client == self.proposals@[l].client && props0[l].package@
                    == self.proposals@[l].package@ && props0[l].carrier == self.proposals@[
                l].carrier);
            }
        }
    }

    /// Flips the bid keyed by `(client, package_id, carrier)` to `Accepted`.
    /// Rejecting the competitors is the caller's business.
    pub fn accept_proposal(&mut self, client: AccountId, package_id: &PackageId, carrier: AccountId)
        -> (r: Result<(), Error>)
        requires
            old(self).wf(),
        ensures
            final(self).wf(),
            match r {
                Ok(()) => exists|i: int|
                    0 <= i < old(self).proposals@.len() && #[trigger] prop_key_is(
                        old(self).proposals@[i],
                        client,
                        package_id@,
                        carrier,
                    ) && final(self).proposals@ == old(self).proposals@.update(
                        i,
                        with_status(old(self).proposals@[i], ProposalStatus::Accepted),
                    ) && final(self).events@ == old(self).events@.push(
                        Event::ProposalAccepted { client, package: *package_id, carrier },
                    ),
                Err(Error::ProposalDoesNotExist) => !has_prop(
                    old(self).proposals@,
                    client,
                    package_id@,
                    carrier,
                ) && *final(self) == *old(self),
                Err(_) => false,
            },
    {
        match self.find_proposal_index(client, package_id, carrier) {
            Some(i) => {
                let ghost props0 = self.proposals@;
                let slot = &mut self.proposals[i];
                slot.status = ProposalStatus::Accepted;
                self.events.push(
                    Event::ProposalAccepted { client, package: *package_id, carrier },
                );
                proof {
                    assert forall|k: int, l: int|
                        #![trigger self.proposals@[k], self.proposals@[l]]
                        0 <= k < l < self.proposals@.len() implies !(self.proposals@[k].client
                        == self.proposals@[l].client && self.proposals@[k].package@
                        == self.proposals@[l].package@ && self.proposals@[k].carrier
                        == self.proposals@[l].carrier) by {
                        assert(props0[k].client == self.proposals@[k].client && props0[k].package@
                            == self.proposals@[k].package@ && props0[k].carrier == self.proposals@[
                        k].carrier);
                        assert(props0[l].client == self.proposals@[l].client && props0[l].package@
                            == self.proposals@[l].package@ && props0[l].carrier == self.proposals@[
                        l].carrier);
                    }
                }
                Ok(())
            },
            None => Err(Error::ProposalDoesNotExist),
        }
    }

    /// The single-pallet convenience entry point: the client `who` accepts
    /// `carrier`'s bid, which must still be open; every bid on the package
    /// (the chosen one included) is first flipped to `Rejected`, then the
    /// chosen one to `Accepted`.  After it, exactly the chosen bid is
    /// `Accepted` and every competitor is `Rejected`.
    pub fn proposal_accept(&mut self, who: AccountId, package_id: PackageId, carrier: AccountId)
        -> (r: Result<(), Error>)
        requires
            old(self).wf(),
        ensures
            final(self).wf(),
            match r {
                Ok(()) => valid_prop(old(self).proposals@, who, package_id@, carrier) && final(self).proposals@ == resolve_proposals(
                    old(self).proposals@,
                    who,
                    package_id@,
                    carrier,
                ) && final(self).events@ == old(self).events@.push(
                    Event::ProposalAccepted { client: who, package: package_id, carrier },
                ),
                Err(Error::InvalidProposal) => !valid_prop(
                    old(self).proposals@,
                    who,
                    package_id@,
                    carrier,
                ) && *final(self) == *old(self),
                Err(_) => false,
            },
    {
        if !self.proposal_is_valid(who, &package_id, carrier) {
            return Err(Error::InvalidProposal);
        }
        let ghost props0 = self.proposals@;
        let ghost events0 = self.events@;

        // Reject every bid on the package, the chosen one included; the
        // acceptance below flips the chosen one back.  No rejection events
        // are emitted on this path.
        let total = self.proposals.len();
        let mut i: usize = 0;
        while i < total
            invariant
                i <= total,
                total == props0.len(),
                self.proposals@.len() == total,
                forall|j: int|
                    0 <= j < total ==> #[trigger] self.proposals@[j] == if j < i
                        && prop_matches_package(props0[j], who, package_id@) {
                        with_status(props0[j], ProposalStatus::Rejected)
                    } else {
                        props0[j]
                    },
                self.events@ == events0,
            decreases total - i,
        {
            let matches = self.proposals[i].client == who && package_id_eq(
                &self.proposals[i].package,
                &package_id,
            );
            if matches {
                let slot = &mut self.proposals[i];
                slot.status = ProposalStatus::Rejected;
            }
            i += 1;
        }
        proof {
            assert forall|k: int, l: int|
                #![trigger self.proposals@[k], self.proposals@[l]]
                0 <= k < l < self.proposals@.len() implies !(self.proposals@[k].client
                == self.proposals@[l].client && self.proposals@[k].package@ == self.proposals@[
                l].package@ && self.proposals@[k].carrier == self.proposals@[l].carrier) by {
                assert(props0[k].client == self.proposals@[k].client && props0[k].package@
                    == self.proposals@[k].package@ && props0[k].carrier == self.proposals@[
                k].carrier);
                assert(props0[l].client == self.proposals@[l].client && props0[l].package@
                    == self.proposals@[l].package@ && props0[l].carrier == self.proposals@[
                l].carrier);
            }
            let w = choose|w: int|
                0 <= w < props0.len() && #[trigger] prop_key_is(props0[w], who, package_id@, carrier)
                    && props0[w].status == ProposalStatus::Proposed;
            assert(prop_key_is(self.proposals@[w], who, package_id@, carrier));
        }
        let ghost props1 = self.proposals@;
        match self.accept_proposal(who, &package_id, carrier) {
            Ok(()) => {
                proof {
                    let i0 = choose|i0: int|
                        0 <= i0 < props1.len() && #[trigger] prop_key_is(
                            props1[i0],
                            who,
                            package_id@,
                            carrier,
                        ) && self.proposals@ == props1.update(
                            i0,
                            with_status(props1[i0], ProposalStatus::Accepted),
                        );
                    assert forall|j: int|
                        0 <= j < self.proposals@.len() implies #[trigger] self.proposals@[j]
                        == resolve_proposals(props0, who, package_id@, carrier)[j] by {
                        if j != i0 && prop_matches_package(props0[j], who, package_id@) && props0[
                        j].carrier == carrier {
                            assert(prop_key_is(props1[j], who, package_id@, carrier));
                            lemma_prop_index_unique(props1, who, package_id@, carrier, i0, j);
                        }
                    }
                    assert(self.proposals@ =~= resolve_proposals(props0, who, package_id@, carrier));
                }
                Ok(())
            },
            Err(e) => {
                // Unreachable: the validity check above pinned an open bid,
                // whose key the rejection pass preserved.
                Err(e)
            },
        }
    }

    /// Final fee for the bid keyed by `(client, package_id, carrier)`, given
    /// the collection and delivery heights.  A zero penalty period would
    /// fault in the division, so the caller keeps such bids away from here;
    /// within the settlement layer, proposal creation already rejects them.
    pub fn calculate_final_fee_amount(
        &self,
        client: AccountId,
        package_id: &PackageId,
        carrier: AccountId,
        collected_on: BlockNumber,
        delivered_on: BlockNumber,
    ) -> (r: Result<u128, Error>)
        requires
            self.wf(),
            collected_on <= delivered_on,
            forall|i: int|
                0 <= i < self.proposals@.len() && prop_key_is(
                    #[trigger] self.proposals@[i],
                    client,
                    package_id@,
                    carrier,
                ) ==> self.proposals@[i].penalty_period > 0,
        ensures
            match r {
                Ok(fee) => exists|i: int|
                    0 <= i < self.proposals@.len() && #[trigger] prop_key_is(
                        self.proposals@[i],
                        client,
                        package_id@,
                        carrier,
                    ) && fee == final_fee_math(
                        self.proposals@[i].maximum_fee_amount,
                        self.proposals@[i].minimum_fee_amount,
                        self.proposals@[i].penalty_period,
                        self.proposals@[i].penalty_amount,
                        collected_on,
                        delivered_on,
                    ),
                Err(Error::ProposalDoesNotExist) => !has_prop(
                    self.proposals@,
                    client,
                    package_id@,
                    carrier,
                ),
                Err(_) => false,
            },
    {
        match self.find_proposal_index(client, package_id, carrier) {
            Some(i) => {
                let p = self.proposals[i];
                // For every full penalty period of transit, deduct the
                // penalty amount; the subtraction saturates and the result
                // never drops below the minimum fee.
                let blocks_taken = delivered_on - collected_on;
                let periods = blocks_taken / (p.penalty_period as u64);
                let fee = match (periods as u128).checked_mul(p.penalty_amount) {
                    Some(penalty) => {
                        if p.maximum_fee_amount >= penalty && p.maximum_fee_amount - penalty
                            > p.minimum_fee_amount {
                            p.maximum_fee_amount - penalty
                        } else {
                            p.minimum_fee_amount
                        }
                    },
                    None => {
                        proof {
                            lemma_mul_nonnegative(periods as int, p.penalty_amount as int);
                        }
                        p.minimum_fee_amount
                    },
                };
                Ok(fee)
            },
            None => Err(Error::ProposalDoesNotExist),
        }
    }

    /// Unconditionally deletes every bid on `(client, package_id)`; the
    /// sweeper's path for concluded packages.
    pub fn remove_concluded_proposals(&mut self, client: AccountId, package_id: PackageId)
        requires
            old(self).wf(),
        ensures
            final(self).wf(),
            final(self).events@ == old(self).events@,
            final(self).proposals@ == remaining_proposals(
                old(self).proposals@,
                client,
                package_id@,
            ),
    {
        let ghost props0 = self.proposals@;
        let ghost events0 = self.events@;
        let mut old_proposals: Vec<Proposal> = Vec::new();
        core::mem::swap(&mut old_proposals, &mut self.proposals);
        let mut k: usize = 0;
        let total = old_proposals.len();
        while k < total
            invariant
                k <= total,
                total == props0.len(),
                old_proposals@ == props0.subrange(k as int, total as int),
                self.proposals@ == remaining_proposals(props0.take(k as int), client, package_id@),
                self.events@ == events0,
            decreases total - k,
        {
            let p = old_proposals.remove(0);
            let keep = !(p.client == client && package_id_eq(&p.package, &package_id));
            proof {
                assert(props0.take(k as int + 1).drop_last() =~= props0.take(k as int));
                assert(props0.take(k as int + 1).last() == props0[k as int]);
            }
            if keep {
                self.proposals.push(p);
            }
            k += 1;
            proof {
                assert(old_proposals@ =~= props0.subrange(k as int, total as int));
            }
        }
        proof {
            assert(props0.take(total as int) =~= props0);
            lemma_remaining_proposals_wf(props0, client, package_id@);
        }
    }
}

/// A survivor of a prefix clear stems from the store before the clear and does not
/// bid on the cleared package.
pub proof fn lemma_remaining_proposals_membership(s: Seq<Proposal>, client: AccountId, id: Seq<u8>)
    ensures
        forall|j: int|
            0 <= j < remaining_proposals(s, client, id).len() ==> exists|i: int|
                0 <= i < s.len() && s[i] == #[trigger] remaining_proposals(s, client, id)[j],
        forall|j: int|
            0 <= j < remaining_proposals(s, client, id).len() ==> !prop_matches_package(
                #[trigger] remaining_proposals(s, client, id)[j],
                client,
                id,
            ),
    decreases s.len(),
{
    if s.len() > 0 {
        lemma_remaining_proposals_membership(s.drop_last(), client, id);
        let r = remaining_proposals(s, client, id);
        let rd = remaining_proposals(s.drop_last(), client, id);
        assert forall|j: int|
            0 <= j < r.len() implies exists|i: int| 0 <= i < s.len() && s[i] == #[trigger] r[j] by {
            if j < rd.len() {
                let i = choose|i: int| 0 <= i < s.drop_last().len() && s.drop_last()[i] == rd[j];
                assert(s[i] == rd[j]);
            } else {
                assert(r[j] == s.last());
                assert(s[s.len() - 1] == s.last());
            }
        }
        assert forall|j: int|
            0 <= j < r.len() implies !prop_matches_package(#[trigger] r[j], client, id) by {
            if j < rd.len() {
                assert(r[j] == rd[j]);
            }
        }
    }
}

/// A bid on another package survives a prefix clear.
pub proof fn lemma_remaining_proposals_has_prop(
    s: Seq<Proposal>,
    cleared_client: AccountId,
    cleared_id: Seq<u8>,
    client: AccountId,
    id: Seq<u8>,
    carrier: AccountId,
)
    requires
        has_prop(s, client, id, carrier),
        !(client == cleared_client && id == cleared_id),
    ensures
        has_prop(remaining_proposals(s, cleared_client, cleared_id), client, id, carrier),
    decreases s.len(),
{
    let r = remaining_proposals(s, cleared_client, cleared_id);
    let rd = remaining_proposals(s.drop_last(), cleared_client, cleared_id);
    let w = choose|w: int| 0 <= w < s.len() && #[trigger] prop_key_is(s[w], client, id, carrier);
    if w == s.len() - 1 {
        assert(s.last() == s[w]);
        assert(prop_key_is(r[r.len() - 1], client, id, carrier));
    } else {
        assert(prop_key_is(s.drop_last()[w], client, id, carrier));
        lemma_remaining_proposals_has_prop(
            s.drop_last(),
            cleared_client,
            cleared_id,
            client,
            id,
            carrier,
        );
        let v = choose|v: int| 0 <= v < rd.len() && #[trigger] prop_key_is(rd[v], client, id, carrier);
        if prop_matches_package(s.last(), cleared_client, cleared_id) {
            assert(prop_key_is(r[v], client, id, carrier));
        } else {
            assert(prop_key_is(r[v], client, id, carrier));
        }
    }
}

/// A prefix clear keeps keys unique.
proof fn lemma_remaining_proposals_wf(s: Seq<Proposal>, client: AccountId, id: Seq<u8>)
    requires
        props_unique(s),
    ensures
        props_unique(remaining_proposals(s, client, id)),
    decreases s.len(),
{
    lemma_remaining_proposals_membership(s, client, id);
    if s.len() > 0 {
        assert(forall|i: int, j: int|
            #![trigger s.drop_last()[i], s.drop_last()[j]]
            0 <= i < j < s.len() - 1 ==> !(s.drop_last()[i].client == s.drop_last()[j].client
                && s.drop_last()[i].package@ == s.drop_last()[j].package@ && s.drop_last()[
            i].carrier == s.drop_last()[j].carrier));
        lemma_remaining_proposals_wf(s.drop_last(), client, id);
        let r = remaining_proposals(s, client, id);
        let rd = remaining_proposals(s.drop_last(), client, id);
        lemma_remaining_proposals_membership(s.drop_last(), client, id);
        if !prop_matches_package(s.last(), client, id) {
            assert forall|i: int, j: int|
                #![trigger r[i], r[j]]
                0 <= i < j < r.len() implies !(r[i].client == r[j].client && r[i].package@ == r[
            j].package@ && r[i].carrier == r[j].carrier) by {
                if j == r.len() - 1 {
                    let i0 = choose|i0: int|
                        0 <= i0 < s.drop_last().len() && s.drop_last()[i0] == rd[i];
                    assert(s[i0] == r[i]);
                    assert(s[s.len() - 1] == s.last());
                }
            }
        }
    }
}

} // verus!
