//! Settlement orchestrator: composes the package lifecycle manager, the
//! proposal manager and the account ledger into atomic cross-entity
//! operations — assignment, cancellation and delivery — and runs the
//! per-block sweeper that clears concluded records.
//!
//! Every fallible step of an operation runs before its first mutation, so a
//! failure anywhere leaves all three stores exactly as they were.

use vstd::prelude::*;

use crate::carrier;
use crate::carrier::has_prop;
use crate::carrier::prop_key_is;
use crate::carrier::prop_matches_package;
use crate::carrier::rejection_events;
use crate::carrier::resolve_proposals;
use crate::carrier::valid_prop;
use crate::carrier::with_status;
use crate::ledger::Ledger;
use crate::package;
use crate::package::has_pkg;
use crate::package::in_entries;
use crate::package::pkg_key_is;
use crate::package::pkg_with_status;
use crate::types::AccountId;
use crate::types::BlockNumber;
use crate::types::Package;
use crate::types::PackageId;
use crate::types::PackageStatus;
use crate::types::Proposal;
use crate::types::ProposalStatus;
use crate::types::status_is_terminal;
use crate::types::status_reachable;

verus! {

/// Errors of the settlement orchestrator: its own funds errors, and the
/// managers' errors passed through unchanged.
#[derive(Clone, Copy, PartialEq, Eq, Debug)]
pub enum Error {
    /// An error of the package lifecycle manager.
    Package(package::Error),
    /// An error of the proposal manager.
    Carrier(carrier::Error),
    /// Not enough funds available to perform the requested action.
    InsufficientFunds,
    /// Could not convert a fee amount into a valid balance.
    InvalidFee,
}

/// Events the settlement orchestrator itself emits.
#[derive(Clone, Copy, PartialEq, Eq, Debug)]
pub enum Event {
    /// New package created.
    PackageCreated { client: AccountId, package: PackageId },
    /// Package has been assigned to a carrier.
    PackageAssigned { client: AccountId, package: PackageId, carrier: AccountId },
    /// Package collected by its carrier.
    PackageCollected { client: AccountId, package: PackageId, carrier: AccountId },
    /// Package has been delivered.
    PackageDelivered { client: AccountId, package: PackageId },
    /// Package has been cancelled.
    PackageCancelled { client: AccountId, package: PackageId },
}

/// The orchestrator: both managers, the ledger they settle against, the
/// block clock, and its own event log.
pub struct Pallet {
    pub package: package::Pallet,
    pub carrier: carrier::Pallet,
    pub ledger: Ledger,
    pub now: BlockNumber,
    pub events: Vec<Event>,
}

/// Every package of `after` that shares a key with a package of `before`
/// moved along the forward state machine only.
pub open spec fn packages_progress(before: Seq<Package>, after: Seq<Package>) -> bool {
    forall|i: int, j: int|
        #![trigger before[i], after[j]]
        0 <= i < before.len() && 0 <= j < after.len() && before[i].client == after[j].client
            && before[i].id@ == after[j].id@ ==> status_reachable(
            before[i].status,
            after[j].status,
        )
}

/// Whether the delivery settlement of `pkg` against the bid `p` can go
/// through on the ledger of `pre`: after releasing the fee reservation, the
/// final fee is payable from the client `who` to `carrier` while keeping the
/// client's free balance at the existential minimum, and the carrier's total
/// still fits the balance type.
pub open spec fn deliver_funds_feasible(
    pre: Pallet,
    who: AccountId,
    carrier: AccountId,
    pkg: Package,
    p: Proposal,
) -> bool {
    let collected = if pkg.collected_on is Some {
        pkg.collected_on->Some_0
    } else {
        pre.now
    };
    let fee = carrier::final_fee_math(
        p.maximum_fee_amount,
        p.minimum_fee_amount,
        p.penalty_period,
        p.penalty_amount,
        collected,
        pre.now,
    );
    let fee_b: int = if fee > u64::MAX {
        u64::MAX as int
    } else {
        fee
    };
    let moved_f: int = if p.maximum_fee_amount <= pre.ledger.reserved_of(who) {
        p.maximum_fee_amount as int
    } else {
        pre.ledger.reserved_of(who) as int
    };
    &&& fee_b <= pre.ledger.free_of(who) + moved_f
    &&& pre.ledger.free_of(who) + moved_f - fee_b >= pre.ledger.minimum_balance
    &&& (who == carrier || pre.ledger.free_of(carrier) + pre.ledger.reserved_of(carrier) + fee_b
        <= u64::MAX)
}

/// The proposal store after the sweeper has cleared, in order, every bid on
/// each drained entry's package.
pub open spec fn proposals_after_sweep(
    s: Seq<Proposal>,
    entries: Seq<package::ConcludedEntry>,
) -> Seq<Proposal>
    decreases entries.len(),
{
    if entries.len() == 0 {
        s
    } else {
        carrier::remaining_proposals(
            proposals_after_sweep(s, entries.drop_last()),
            entries.last().0,
            entries.last().1@,
        )
    }
}

impl Pallet {
    /// An assigned or in-transit package carries its carrier, and that
    /// carrier's bid — the one whose maximum fee was reserved — is on
    /// record with a fee the balance type can hold.
    pub open spec fn assigned_have_proposals(self) -> bool {
        forall|i: int|
            0 <= i < self.package.packages@.len() && ((#[trigger] self.package.packages@[i]).status
                == PackageStatus::Assigned || self.package.packages@[i].status
                == PackageStatus::InTransit) ==> self.package.packages@[i].carrier is Some
                && has_prop(
                self.carrier.proposals@,
                self.package.packages@[i].client,
                self.package.packages@[i].id@,
                self.package.packages@[i].carrier->Some_0,
            )
    }

    /// Every stored bid's maximum fee for an assigned or in-transit package
    /// of its own key fits the balance type.
    pub open spec fn assigned_fees_fit(self) -> bool {
        forall|i: int, j: int|
            #![trigger self.package.packages@[i], self.carrier.proposals@[j]]
            0 <= i < self.package.packages@.len() && 0 <= j < self.carrier.proposals@.len() && (
            self.package.packages@[i].status == PackageStatus::Assigned
                || self.package.packages@[i].status == PackageStatus::InTransit)
                && self.package.packages@[i].carrier is Some && prop_key_is(
                self.carrier.proposals@[j],
                self.package.packages@[i].client,
                self.package.packages@[i].id@,
                self.package.packages@[i].carrier->Some_0,
            ) ==> self.carrier.proposals@[j].maximum_fee_amount <= u64::MAX
    }

    /// At most one bid per package is `Accepted`.
    pub open spec fn at_most_one_accepted(self) -> bool {
        forall|i: int, j: int|
            #![trigger self.carrier.proposals@[i], self.carrier.proposals@[j]]
            0 <= i < j < self.carrier.proposals@.len() && self.carrier.proposals@[i].client
                == self.carrier.proposals@[j].client && self.carrier.proposals@[i].package@
                == self.carrier.proposals@[j].package@ ==> !(self.carrier.proposals@[i].status
                == ProposalStatus::Accepted && self.carrier.proposals@[j].status
                == ProposalStatus::Accepted)
    }

    /// Recorded collection heights never lie in the future.
    pub open spec fn clock_consistent(self) -> bool {
        forall|i: int|
            0 <= i < self.package.packages@.len() && (#[trigger] self.package.packages@[
            i]).collected_on is Some ==> self.package.packages@[i].collected_on->Some_0 <= self.now
    }

    /// Every stored bid carries a positive penalty period: proposal creation
    /// rejects a zero one, so fee computation never divides by zero.
    pub open spec fn periods_positive(self) -> bool {
        forall|j: int|
            0 <= j < self.carrier.proposals@.len() ==> (#[trigger] self.carrier.proposals@[
            j]).penalty_period > 0
    }

    /// A queued concluded entry always points at an existing package in a
    /// terminal state, so the sweeper only ever deletes concluded records.
    pub open spec fn concluded_are_terminal(self) -> bool {
        &&& forall|j: int|
            0 <= j < self.package.concluded_packages@.len() ==> has_pkg(
                self.package.packages@,
                (#[trigger] self.package.concluded_packages@[j]).0,
                self.package.concluded_packages@[j].1@,
            )
        &&& forall|j: int, i: int|
            #![trigger self.package.concluded_packages@[j], self.package.packages@[i]]
            0 <= j < self.package.concluded_packages@.len() && 0 <= i
                < self.package.packages@.len() && pkg_key_is(
                self.package.packages@[i],
                self.package.concluded_packages@[j].0,
                self.package.concluded_packages@[j].1@,
            ) ==> status_is_terminal(self.package.packages@[i].status)
    }

    /// The system invariant: both managers and the ledger are well-formed,
    /// and the cross-entity facts that settlement relies on hold.
    pub open spec fn wf(self) -> bool {
        &&& self.package.wf()
        &&& self.carrier.wf()
        &&& self.ledger.wf()
        &&& self.assigned_have_proposals()
        &&& self.assigned_fees_fit()
        &&& self.at_most_one_accepted()
        &&& self.clock_consistent()
        &&& self.periods_positive()
        &&& self.concluded_are_terminal()
    }

    /// A fresh system at block zero with empty stores.
    pub fn new(
        ernest_deposit: u64,
        description_max_length: u32,
        max_concluded_packages: usize,
        minimum_balance: u64,
    ) -> (r: Pallet)
        ensures
            r.wf(),
            r.package.config == (package::Config {
                ernest_deposit,
                description_max_length,
                max_concluded_packages,
            }),
            r.ledger.minimum_balance == minimum_balance,
            r.now == 0,
            r.package.packages@.len() == 0,
            r.package.manifests@.len() == 0,
            r.package.concluded_packages@.len() == 0,
            r.carrier.proposals@.len() == 0,
            r.ledger.accounts@.len() == 0,
            r.package.events@.len() == 0,
            r.carrier.events@.len() == 0,
            r.events@.len() == 0,
    {
        Pallet {
            package: package::Pallet::new(
                package::Config { ernest_deposit, description_max_length, max_concluded_packages },
            ),
            carrier: carrier::Pallet::new(),
            ledger: Ledger::new(minimum_balance),
            now: 0,
            events: Vec::new(),
        }
    }

    /// Current block height.
    pub fn block_height(&self) -> (r: BlockNumber)
        ensures
            r == self.now,
    {
        self.now
    }

    /// Endows `account` with `amount` of free balance; the test bench's and
    /// surrounding node's way of funding accounts.
    pub fn endow(&mut self, account: AccountId, amount: u64) -> (ok: bool)
        requires
            old(self).wf(),
        ensures
            final(self).wf(),
            final(self).package == old(self).package,
            final(self).carrier == old(self).carrier,
            final(self).now == old(self).now,
            final(self).events@ == old(self).events@,
            ok == (old(self).ledger.free_of(account) + old(self).ledger.reserved_of(account)
                + amount <= u64::MAX),
            ok ==> final(self).ledger.free_of(account) == old(self).ledger.free_of(account)
                + amount,
            !ok ==> final(self).ledger == old(self).ledger,
            final(self).ledger.reserved_of(account) == old(self).ledger.reserved_of(account),
            forall|b: AccountId|
                #![trigger final(self).ledger.free_of(b)]
                #![trigger final(self).ledger.reserved_of(b)]
                b != account ==> final(self).ledger.free_of(b) == old(self).ledger.free_of(b)
                    && final(self).ledger.reserved_of(b) == old(self).ledger.reserved_of(b),
    {
        self.ledger.deposit(account, amount)
    }

    /// Creates a package with its manifest for the caller `who`, validating
    /// the address and description bounds and reserving the base deposit.
    pub fn package_create(
        &mut self,
        who: AccountId,
        package_id: PackageId,
        pickup: Vec<u8>,
        destination: Vec<u8>,
        description: Vec<u8>,
        length: u32,
        width: u32,
        height: u32,
        weight: u32,
        contains_hazardous_materials: bool,
        requires_climate_controlled: bool,
    ) -> (r: Result<(), package::Error>)
        requires
            old(self).wf(),
        ensures
            final(self).wf(),
            final(self).now == old(self).now,
            final(self).carrier == old(self).carrier,
            final(self).events@ == old(self).events@,
            final(self).package.config == old(self).package.config,
            final(self).package.concluded_packages@ == old(self).package.concluded_packages@,
            packages_progress(old(self).package.packages@, final(self).package.packages@),
            forall|b: AccountId|
                #![trigger final(self).ledger.free_of(b)]
                #![trigger final(self).ledger.reserved_of(b)]
                b != who ==> final(self).ledger.free_of(b) == old(self).ledger.free_of(b)
                    && final(self).ledger.reserved_of(b) == old(self).ledger.reserved_of(b),
            match r {
                Ok(()) => pickup@.len() <= crate::types::THREE_WORD_ADDRESS_MAX_LENGTH
                    && destination@.len() <= crate::types::THREE_WORD_ADDRESS_MAX_LENGTH
                    && description@.len() <= old(self).package.config.description_max_length
                    && !has_pkg(old(self).package.packages@, who, package_id@) && old(self).package.config.ernest_deposit <= old(self).ledger.free_of(who) && final(self).package.packages@ == old(self).package.packages@.push(
                    (Package {
                        id: package_id,
                        client: who,
                        carrier: None,
                        pickup,
                        destination,
                        requested_on: old(self).now,
                        collected_on: None,
                        delivered_on: None,
                        status: PackageStatus::New,
                    }),
                ) && final(self).ledger.reserved_of(who) == old(self).ledger.reserved_of(who) + old(self).package.config.ernest_deposit && final(self).ledger.free_of(who) == old(self).ledger.free_of(who) - old(self).package.config.ernest_deposit && final(self).package.events@ == old(self).package.events@.push(
                    package::Event::PackageCreated { client: who, package: package_id },
                ),
                Err(package::Error::InvalidThreeWordAddress) => (pickup@.len()
                    > crate::types::THREE_WORD_ADDRESS_MAX_LENGTH || destination@.len()
                    > crate::types::THREE_WORD_ADDRESS_MAX_LENGTH) && *final(self) == *old(self),
                Err(package::Error::InvalidDescription) => pickup@.len()
                    <= crate::types::THREE_WORD_ADDRESS_MAX_LENGTH && destination@.len()
                    <= crate::types::THREE_WORD_ADDRESS_MAX_LENGTH && description@.len() > old(self).package.config.description_max_length && *final(self) == *old(self),
                Err(package::Error::PackageExists) => pickup@.len()
                    <= crate::types::THREE_WORD_ADDRESS_MAX_LENGTH && destination@.len()
                    <= crate::types::THREE_WORD_ADDRESS_MAX_LENGTH && description@.len() <= old(self).package.config.description_max_length && has_pkg(
                    old(self).package.packages@,
                    who,
                    package_id@,
                ) && *final(self) == *old(self),
                Err(package::Error::InsufficientFunds) => pickup@.len()
                    <= crate::types::THREE_WORD_ADDRESS_MAX_LENGTH && destination@.len()
                    <= crate::types::THREE_WORD_ADDRESS_MAX_LENGTH && description@.len() <= old(self).package.config.description_max_length && !has_pkg(
                    old(self).package.packages@,
                    who,
                    package_id@,
                ) && old(self).package.config.ernest_deposit > old(self).ledger.free_of(who)
                    && *final(self) == *old(self),
                Err(_) => false,
            },
    {
        let ghost pkgs0 = self.package.packages@;
        let r = self.package.package_create(
            who,
            package_id,
            pickup,
            destination,
            description,
            length,
            width,
            height,
            weight,
            contains_hazardous_materials,
            requires_climate_controlled,
            self.now,
            &mut self.ledger,
        );
        proof {
            let pkgs1 = self.package.packages@;
            assert forall|i: int, j: int|
                #![trigger pkgs0[i], pkgs1[j]]
                0 <= i < pkgs0.len() && 0 <= j < pkgs1.len() && pkgs0[i].client == pkgs1[j].client
                    && pkgs0[i].id@ == pkgs1[j].id@ implies status_reachable(
                pkgs0[i].status,
                pkgs1[j].status,
            ) by {
                if r is Ok {
                    if j == pkgs1.len() - 1 {
                        assert(pkg_key_is(pkgs0[i], who, package_id@));
                        assert(false);
                    } else {
                        assert(pkgs1[j] == pkgs0[j]);
                    }
                }
            }
            if r is Ok {
                assert(pkgs1 == pkgs0.push(pkgs1.last()));
                assert forall|i: int|
                    0 <= i < pkgs1.len() && ((#[trigger] pkgs1[i]).status
                        == PackageStatus::Assigned || pkgs1[i].status == PackageStatus::InTransit)
                    implies pkgs1[i].carrier is Some && has_prop(
                    self.carrier.proposals@,
                    pkgs1[i].client,
                    pkgs1[i].id@,
                    pkgs1[i].carrier->Some_0,
                ) by {
                    assert(pkgs1[i] == pkgs0[i]);
                }
                assert forall|j: int|
                    0 <= j < self.package.concluded_packages@.len() implies has_pkg(
                    pkgs1,
                    (#[trigger] self.package.concluded_packages@[j]).0,
                    self.package.concluded_packages@[j].1@,
                ) by {
                    let e = self.package.concluded_packages@[j];
                    let w = choose|w: int|
                        0 <= w < pkgs0.len() && #[trigger] pkg_key_is(pkgs0[w], e.0, e.1@);
                    assert(pkg_key_is(pkgs1[w], e.0, e.1@));
                }
                assert forall|j: int, i: int|
                    #![trigger self.package.concluded_packages@[j], pkgs1[i]]
                    0 <= j < self.package.concluded_packages@.len() && 0 <= i < pkgs1.len()
                        && pkg_key_is(
                        pkgs1[i],
                        self.package.concluded_packages@[j].0,
                        self.package.concluded_packages@[j].1@,
                    ) implies status_is_terminal(pkgs1[i].status) by {
                    let e = self.package.concluded_packages@[j];
                    if i == pkgs1.len() - 1 {
                        let w = choose|w: int|
                            0 <= w < pkgs0.len() && #[trigger] pkg_key_is(pkgs0[w], e.0, e.1@);
                        assert(pkg_key_is(pkgs1[w], e.0, e.1@));
                        assert(false);
                    } else {
                        assert(pkgs1[i] == pkgs0[i]);
                    }
                }
            }
        }
        r
    }

    /// The carrier `who` bids on `(client, package_id)`.  A zero penalty
    /// period is rejected outright as invalid — it could otherwise fault
    /// the fee computation at delivery.
    pub fn proposal_create(
        &mut self,
        who: AccountId,
        client: AccountId,
        package_id: PackageId,
        maximum_fee_amount: u128,
        minimum_fee_amount: u128,
        penalty_period: u32,
        penalty_amount: u128,
    ) -> (r: Result<(), Error>)
        requires
            old(self).wf(),
        ensures
            final(self).wf(),
            final(self).now == old(self).now,
            final(self).package == old(self).package,
            final(self).ledger == old(self).ledger,
            final(self).events@ == old(self).events@,
            packages_progress(old(self).package.packages@, final(self).package.packages@),
            match r {
                Ok(()) => penalty_period > 0 && !has_prop(
                    old(self).carrier.proposals@,
                    client,
                    package_id@,
                    who,
                ) && final(self).carrier.proposals@ == old(self).carrier.proposals@.push(
                    (Proposal {
                        package: package_id,
                        client,
                        carrier: who,
                        maximum_fee_amount,
                        minimum_fee_amount,
                        penalty_period,
                        penalty_amount,
                        proposed_on: old(self).now,
                        status: ProposalStatus::Proposed,
                    }),
                ) && final(self).carrier.events@ == old(self).carrier.events@.push(
                    carrier::Event::ProposalCreated {
                        client,
                        package: package_id,
                        carrier: who,
                        maximum_fee: maximum_fee_amount,
                        minimum_fee: minimum_fee_amount,
                    },
                ),
                Err(Error::Carrier(carrier::Error::InvalidProposal)) => penalty_period == 0
                    && *final(self) == *old(self),
                Err(Error::Carrier(carrier::Error::ProposalExists)) => penalty_period > 0
                    && has_prop(old(self).carrier.proposals@, client, package_id@, who) && *final(self) == *old(self),
                Err(_) => false,
            },
    {
        if penalty_period == 0 {
            return Err(Error::Carrier(carrier::Error::InvalidProposal));
        }
        let ghost props0 = self.carrier.proposals@;
        let r = self.carrier.proposal_create(
            who,
            client,
            package_id,
            maximum_fee_amount,
            minimum_fee_amount,
            penalty_period,
            penalty_amount,
            self.now,
        );
        match r {
            Ok(()) => {
                proof {
                    let props1 = self.carrier.proposals@;
                    assert forall|i: int|
                        0 <= i < self.package.packages@.len() && ((
                        #[trigger] self.package.packages@[i]).status == PackageStatus::Assigned
                            || self.package.packages@[i].status == PackageStatus::InTransit)
                        implies self.package.packages@[i].carrier is Some && has_prop(
                        props1,
                        self.package.packages@[i].client,
                        self.package.packages@[i].id@,
                        self.package.packages@[i].carrier->Some_0,
                    ) by {
                        let p = self.package.packages@[i];
                        let w = choose|w: int|
                            0 <= w < props0.len() && #[trigger] prop_key_is(
                                props0[w],
                                p.client,
                                p.id@,
                                p.carrier->Some_0,
                            );
                        assert(prop_key_is(props1[w], p.client, p.id@, p.carrier->Some_0));
                    }
                    assert forall|i: int, j: int|
                        #![trigger self.package.packages@[i], props1[j]]
                        0 <= i < self.package.packages@.len() && 0 <= j < props1.len() && (
                        self.package.packages@[i].status == PackageStatus::Assigned
                            || self.package.packages@[i].status == PackageStatus::InTransit)
                            && self.package.packages@[i].carrier is Some && prop_key_is(
                            props1[j],
                            self.package.packages@[i].client,
                            self.package.packages@[i].id@,
                            self.package.packages@[i].carrier->Some_0,
                        ) implies props1[j].maximum_fee_amount <= u64::MAX by {
                        let p = self.package.packages@[i];
                        if j == props1.len() - 1 {
                            let w = choose|w: int|
                                0 <= w < props0.len() && #[trigger] prop_key_is(
                                    props0[w],
                                    p.client,
                                    p.id@,
                                    p.carrier->Some_0,
                                );
                            assert(prop_key_is(props0[w], client, package_id@, who));
                            assert(false);
                        } else {
                            assert(props1[j] == props0[j]);
                        }
                    }
                }
                Ok(())
            },
            Err(e) => Err(Error::Carrier(e)),
        }
    }

    /// The client `who` accepts `carrier`'s bid through the proposal
    /// manager's own entry point: competitors are rejected and the chosen
    /// bid accepted in one step.
    pub fn proposal_accept(&mut self, who: AccountId, package_id: PackageId, carrier: AccountId)
        -> (r: Result<(), Error>)
        requires
            old(self).wf(),
        ensures
            final(self).wf(),
            final(self).now == old(self).now,
            final(self).package == old(self).package,
            final(self).ledger == old(self).ledger,
            final(self).events@ == old(self).events@,
            packages_progress(old(self).package.packages@, final(self).package.packages@),
            match r {
                Ok(()) => valid_prop(old(self).carrier.proposals@, who, package_id@, carrier)
                    && final(self).carrier.proposals@ == resolve_proposals(
                    old(self).carrier.proposals@,
                    who,
                    package_id@,
                    carrier,
                ) && final(self).carrier.events@ == old(self).carrier.events@.push(
                    carrier::Event::ProposalAccepted { client: who, package: package_id, carrier },
                ),
                Err(Error::Carrier(carrier::Error::InvalidProposal)) => !valid_prop(
                    old(self).carrier.proposals@,
                    who,
                    package_id@,
                    carrier,
                ) && *final(self) == *old(self),
                Err(_) => false,
            },
    {
        let ghost props0 = self.carrier.proposals@;
        let r = self.carrier.proposal_accept(who, package_id, carrier);
        match r {
            Ok(()) => {
                proof {
                    self.lemma_wf_after_resolve(*old(self), who, package_id@, carrier);
                }
                Ok(())
            },
            Err(e) => Err(Error::Carrier(e)),
        }
    }

    /// Atomically assigns `(who, package_id)` to `carrier`: requires the
    /// package to be `New` and the bid to be open, reserves the bid's
    /// maximum fee from the client, marks the package assigned, rejects all
    /// competing bids and accepts the chosen one.  A failure at any step —
    /// the fee reservation included — leaves every store untouched.
    #[verifier::rlimit(100)]
    pub fn package_assign(&mut self, who: AccountId, package_id: PackageId, carrier: AccountId)
        -> (r: Result<(), Error>)
        requires
            old(self).wf(),
        ensures
            final(self).wf(),
            final(self).now == old(self).now,
            final(self).package.config == old(self).package.config,
            final(self).package.manifests@ == old(self).package.manifests@,
            final(self).package.concluded_packages@ == old(self).package.concluded_packages@,
            final(self).events@ == old(self).events@,
            final(self).ledger.minimum_balance == old(self).ledger.minimum_balance,
            packages_progress(old(self).package.packages@, final(self).package.packages@),
            forall|b: AccountId|
                #![trigger final(self).ledger.free_of(b)]
                #![trigger final(self).ledger.reserved_of(b)]
                b != who ==> final(self).ledger.free_of(b) == old(self).ledger.free_of(b)
                    && final(self).ledger.reserved_of(b) == old(self).ledger.reserved_of(b),
            match r {
                Ok(()) => pkg_with_status(
                    old(self).package.packages@,
                    who,
                    package_id@,
                    PackageStatus::New,
                ) && valid_prop(old(self).carrier.proposals@, who, package_id@, carrier) && (
                exists|i: int|
                    0 <= i < old(self).package.packages@.len() && #[trigger] pkg_key_is(
                        old(self).package.packages@[i],
                        who,
                        package_id@,
                    ) && final(self).package.packages@ == old(self).package.packages@.update(
                        i,
                        (Package {
                            carrier: Some(carrier),
                            status: PackageStatus::Assigned,
                            ..old(self).package.packages@[i]
                        }),
                    )) && final(self).carrier.proposals@ == resolve_proposals(
                    old(self).carrier.proposals@,
                    who,
                    package_id@,
                    carrier,
                ) && (forall|j: int|
                    0 <= j < old(self).carrier.proposals@.len() && #[trigger] prop_key_is(
                        old(self).carrier.proposals@[j],
                        who,
                        package_id@,
                        carrier,
                    ) ==> old(self).carrier.proposals@[j].maximum_fee_amount <= u64::MAX && old(self).carrier.proposals@[j].maximum_fee_amount <= old(self).ledger.free_of(who)
                        && final(self).ledger.reserved_of(who) == old(self).ledger.reserved_of(who)
                        + old(self).carrier.proposals@[j].maximum_fee_amount && final(self).ledger.free_of(who) == old(self).ledger.free_of(who) - old(self).carrier.proposals@[j].maximum_fee_amount) && final(self).package.events@
                    == old(self).package.events@.push(
                    package::Event::PackageAssigned { client: who, package: package_id, carrier },
                ) && final(self).carrier.events@ == (old(self).carrier.events@ + rejection_events(
                    old(self).carrier.proposals@,
                    who,
                    package_id@,
                    carrier,
                )).push(
                    carrier::Event::ProposalAccepted { client: who, package: package_id, carrier },
                ),
                Err(e) => *final(self) == *old(self) && match e {
                    Error::Package(package::Error::InvalidPackage) => !pkg_with_status(
                        old(self).package.packages@,
                        who,
                        package_id@,
                        PackageStatus::New,
                    ),
                    Error::Carrier(carrier::Error::InvalidProposal) => pkg_with_status(
                        old(self).package.packages@,
                        who,
                        package_id@,
                        PackageStatus::New,
                    ) && !valid_prop(old(self).carrier.proposals@, who, package_id@, carrier),
                    Error::InvalidFee => pkg_with_status(
                        old(self).package.packages@,
                        who,
                        package_id@,
                        PackageStatus::New,
                    ) && valid_prop(old(self).carrier.proposals@, who, package_id@, carrier) && (
                    forall|j: int|
                        0 <= j < old(self).carrier.proposals@.len() && #[trigger] prop_key_is(
                            old(self).carrier.proposals@[j],
                            who,
                            package_id@,
                            carrier,
                        ) ==> old(self).carrier.proposals@[j].maximum_fee_amount > u64::MAX),
                    Error::InsufficientFunds => pkg_with_status(
                        old(self).package.packages@,
                        who,
                        package_id@,
                        PackageStatus::New,
                    ) && valid_prop(old(self).carrier.proposals@, who, package_id@, carrier) && (
                    forall|j: int|
                        0 <= j < old(self).carrier.proposals@.len() && #[trigger] prop_key_is(
                            old(self).carrier.proposals@[j],
                            who,
                            package_id@,
                            carrier,
                        ) ==> old(self).carrier.proposals@[j].maximum_fee_amount <= u64::MAX && old(self).carrier.proposals@[j].maximum_fee_amount > old(self).ledger.free_of(
                            who,
                        )),
                    _ => false,
                },
            },
    {
        if !self.package.package_is_new(who, &package_id) {
            return Err(Error::Package(package::Error::InvalidPackage));
        }
        if !self.carrier.proposal_is_valid(who, &package_id, carrier) {
            return Err(Error::Carrier(carrier::Error::InvalidProposal));
        }
        // Read the bid's maximum fee; the zero default mirrors a missing
        // record, which validity already rules out.
        let maximum_fee = match self.carrier.proposal_maximum_fee_amount(who, &package_id, carrier)
        {
            Some(v) => v,
            None => 0,
        };
        if maximum_fee > u64::MAX as u128 {
            return Err(Error::InvalidFee);
        }
        let maximum_fee_balance = maximum_fee as u64;
        // Reserve the maximum fee; nothing was mutated yet, so a failure
        // aborts the whole operation with no observable change.
        if !self.ledger.reserve(who, maximum_fee_balance) {
            return Err(Error::InsufficientFunds);
        }
        let ghost pkgs0 = old(self).package.packages@;
        let ghost props0 = self.carrier.proposals@;
        match self.package.assign_package(who, &package_id, carrier) {
            Ok(()) => {},
            Err(e) => {
                proof {
                    let w = choose|w: int|
                        0 <= w < pkgs0.len() && #[trigger] pkg_key_is(pkgs0[w], who, package_id@)
                            && pkgs0[w].status == PackageStatus::New;
                    assert(has_pkg(pkgs0, who, package_id@));
                }
                return Err(Error::Package(e));
            },
        }
        let ghost mid = *self;
        proof {
            let pkgs1 = self.package.packages@;
            let i0 = choose|i0: int|
                0 <= i0 < pkgs0.len() && #[trigger] pkg_key_is(pkgs0[i0], who, package_id@)
                    && pkgs1 == pkgs0.update(
                    i0,
                    (Package {
                        carrier: Some(carrier),
                        status: PackageStatus::Assigned,
                        ..pkgs0[i0]
                    }),
                );
            assert(pkgs0[i0].status == PackageStatus::New) by {
                let w = choose|w: int|
                    0 <= w < pkgs0.len() && #[trigger] pkg_key_is(pkgs0[w], who, package_id@)
                        && pkgs0[w].status == PackageStatus::New;
                package::lemma_pkg_index_unique(pkgs0, who, package_id@, i0, w);
            }
            assert forall|i: int|
                0 <= i < pkgs1.len() && ((#[trigger] pkgs1[i]).status == PackageStatus::Assigned
                    || pkgs1[i].status == PackageStatus::InTransit) implies pkgs1[i].carrier
                is Some && has_prop(props0, pkgs1[i].client, pkgs1[i].id@, pkgs1[i].carrier->Some_0)
                by {
                if i == i0 {
                    let w = choose|w: int|
                        0 <= w < props0.len() && #[trigger] prop_key_is(
                            props0[w],
                            who,
                            package_id@,
                            carrier,
                        ) && props0[w].status == ProposalStatus::Proposed;
                    assert(prop_key_is(props0[w], who, package_id@, carrier));
                } else {
                    assert(pkgs1[i] == pkgs0[i]);
                }
            }
            assert forall|i: int, j: int|
                #![trigger pkgs1[i], props0[j]]
                0 <= i < pkgs1.len() && 0 <= j < props0.len() && (pkgs1[i].status
                    == PackageStatus::Assigned || pkgs1[i].status == PackageStatus::InTransit)
                    && pkgs1[i].carrier is Some && prop_key_is(
                    props0[j],
                    pkgs1[i].client,
                    pkgs1[i].id@,
                    pkgs1[i].carrier->Some_0,
                ) implies props0[j].maximum_fee_amount <= u64::MAX by {
                if i == i0 {
                    assert(prop_key_is(props0[j], who, package_id@, carrier));
                } else {
                    assert(pkgs1[i] == pkgs0[i]);
                }
            }
            assert forall|j: int|
                0 <= j < self.package.concluded_packages@.len() implies has_pkg(
                pkgs1,
                (#[trigger] self.package.concluded_packages@[j]).0,
                self.package.concluded_packages@[j].1@,
            ) by {
                let e = self.package.concluded_packages@[j];
                let w = choose|w: int|
                    0 <= w < pkgs0.len() && #[trigger] pkg_key_is(pkgs0[w], e.0, e.1@);
                if w == i0 {
                    assert(pkg_key_is(pkgs1[i0], e.0, e.1@));
                } else {
                    assert(pkg_key_is(pkgs1[w], e.0, e.1@));
                }
            }
            assert forall|j: int, i: int|
                #![trigger mid.package.concluded_packages@[j], pkgs1[i]]
                0 <= j < mid.package.concluded_packages@.len() && 0 <= i < pkgs1.len()
                    && pkg_key_is(
                    pkgs1[i],
                    mid.package.concluded_packages@[j].0,
                    mid.package.concluded_packages@[j].1@,
                ) implies status_is_terminal(pkgs1[i].status) by {
                let e = mid.package.concluded_packages@[j];
                if i == i0 {
                    assert(pkg_key_is(pkgs0[i0], e.0, e.1@));
                    assert(false);
                } else {
                    assert(pkgs1[i] == pkgs0[i]);
                }
            }
            assert(mid.wf());
            assert forall|i: int, j: int|
                #![trigger pkgs0[i], pkgs1[j]]
                0 <= i < pkgs0.len() && 0 <= j < pkgs1.len() && pkgs0[i].client == pkgs1[j].client
                    && pkgs0[i].id@ == pkgs1[j].id@ implies status_reachable(
                pkgs0[i].status,
                pkgs1[j].status,
            ) by {
                if j == i0 {
                    package::lemma_pkg_index_unique(pkgs0, who, package_id@, i, i0);
                } else {
                    assert(pkgs1[j] == pkgs0[j]);
                    package::lemma_pkg_index_unique(pkgs0, pkgs0[j].client, pkgs0[j].id@, i, j);
                }
            }
        }
        self.carrier.reject_proposals(who, &package_id, carrier);
        let ghost props1 = self.carrier.proposals@;
        match self.carrier.accept_proposal(who, &package_id, carrier) {
            Ok(()) => {},
            Err(e) => {
                proof {
                    let w = choose|w: int|
                        0 <= w < props0.len() && #[trigger] prop_key_is(
                            props0[w],
                            who,
                            package_id@,
                            carrier,
                        ) && props0[w].status == ProposalStatus::Proposed;
                    assert(prop_key_is(props1[w], who, package_id@, carrier));
                }
                return Err(Error::Carrier(e));
            },
        }
        proof {
            let target = resolve_proposals(props0, who, package_id@, carrier);
            let i1 = choose|i1: int|
                0 <= i1 < props1.len() && #[trigger] prop_key_is(
                    props1[i1],
                    who,
                    package_id@,
                    carrier,
                ) && self.carrier.proposals@ == props1.update(
                    i1,
                    with_status(props1[i1], ProposalStatus::Accepted),
                );
            assert forall|j: int|
                0 <= j < self.carrier.proposals@.len() implies #[trigger] self.carrier.proposals@[
                j] == target[j] by {
                if j != i1 && prop_matches_package(props0[j], who, package_id@) && props0[j].carrier
                    == carrier {
                    assert(prop_key_is(props1[j], who, package_id@, carrier));
                    carrier::lemma_prop_index_unique(props1, who, package_id@, carrier, i1, j);
                }
            }
            assert(self.carrier.proposals@ =~= target);
            self.lemma_wf_after_resolve(mid, who, package_id@, carrier);
        }
        Ok(())
    }

    /// Cancels a still-`New` package: marks it cancelled, queues it for the
    /// sweeper and releases the base deposit back to the client.  Open bids
    /// on the package are left as they stand.
    pub fn package_cancel(&mut self, who: AccountId, package_id: PackageId) -> (r: Result<
        (),
        Error,
    >)
        requires
            old(self).wf(),
        ensures
            final(self).wf(),
            final(self).now == old(self).now,
            final(self).package.config == old(self).package.config,
            final(self).package.manifests@ == old(self).package.manifests@,
            final(self).carrier == old(self).carrier,
            final(self).events@ == old(self).events@,
            packages_progress(old(self).package.packages@, final(self).package.packages@),
            forall|b: AccountId|
                #![trigger final(self).ledger.free_of(b)]
                #![trigger final(self).ledger.reserved_of(b)]
                b != who ==> final(self).ledger.free_of(b) == old(self).ledger.free_of(b)
                    && final(self).ledger.reserved_of(b) == old(self).ledger.reserved_of(b),
            match r {
                Ok(()) => pkg_with_status(
                    old(self).package.packages@,
                    who,
                    package_id@,
                    PackageStatus::New,
                ) && (exists|i: int|
                    0 <= i < old(self).package.packages@.len() && #[trigger] pkg_key_is(
                        old(self).package.packages@[i],
                        who,
                        package_id@,
                    ) && final(self).package.packages@ == old(self).package.packages@.update(
                        i,
                        (Package {
                            status: PackageStatus::Cancelled,
                            ..old(self).package.packages@[i]
                        }),
                    )) && final(self).package.concluded_packages@ == (
                if old(self).package.concluded_packages@.len()
                    < old(self).package.config.max_concluded_packages {
                    old(self).package.concluded_packages@.push((who, package_id))
                } else {
                    old(self).package.concluded_packages@
                }) && final(self).package.events@ == old(self).package.events@.push(
                    package::Event::PackageCancelled { client: who, package: package_id },
                ) && final(self).ledger.reserved_of(who) == old(self).ledger.reserved_of(who) - (
                if old(self).package.config.ernest_deposit <= old(self).ledger.reserved_of(who) {
                    old(self).package.config.ernest_deposit
                } else {
                    old(self).ledger.reserved_of(who)
                }) && final(self).ledger.free_of(who) == old(self).ledger.free_of(who) + (
                if old(self).package.config.ernest_deposit <= old(self).ledger.reserved_of(who) {
                    old(self).package.config.ernest_deposit
                } else {
                    old(self).ledger.reserved_of(who)
                }),
                Err(Error::Package(package::Error::InvalidPackage)) => !pkg_with_status(
                    old(self).package.packages@,
                    who,
                    package_id@,
                    PackageStatus::New,
                ) && *final(self) == *old(self),
                Err(_) => false,
            },
    {
        if !self.package.package_is_new(who, &package_id) {
            return Err(Error::Package(package::Error::InvalidPackage));
        }
        let ghost pkgs0 = self.package.packages@;
        let ghost queue0 = self.package.concluded_packages@;
        match self.package.cancel_package(who, &package_id) {
            Ok(()) => {},
            Err(e) => {
                proof {
                    let w = choose|w: int|
                        0 <= w < pkgs0.len() && #[trigger] pkg_key_is(pkgs0[w], who, package_id@)
                            && pkgs0[w].status == PackageStatus::New;
                    assert(has_pkg(pkgs0, who, package_id@));
                }
                return Err(Error::Package(e));
            },
        }
        self.ledger.unreserve(who, self.package.config.ernest_deposit);
        proof {
            let pkgs1 = self.package.packages@;
            let i0 = choose|i0: int|
                0 <= i0 < pkgs0.len() && #[trigger] pkg_key_is(pkgs0[i0], who, package_id@)
                    && pkgs1 == pkgs0.update(
                    i0,
                    (Package { status: PackageStatus::Cancelled, ..pkgs0[i0] }),
                );
            assert(pkgs0[i0].status == PackageStatus::New) by {
                let w = choose|w: int|
                    0 <= w < pkgs0.len() && #[trigger] pkg_key_is(pkgs0[w], who, package_id@)
                        && pkgs0[w].status == PackageStatus::New;
                package::lemma_pkg_index_unique(pkgs0, who, package_id@, i0, w);
            }
            assert forall|i: int|
                0 <= i < pkgs1.len() && ((#[trigger] pkgs1[i]).status == PackageStatus::Assigned
                    || pkgs1[i].status == PackageStatus::InTransit) implies pkgs1[i].carrier
                is Some && has_prop(
                self.carrier.proposals@,
                pkgs1[i].client,
                pkgs1[i].id@,
                pkgs1[i].carrier->Some_0,
            ) by {
                assert(pkgs1[i] == pkgs0[i]);
            }
            assert forall|i: int, j: int|
                #![trigger pkgs1[i], self.carrier.proposals@[j]]
                0 <= i < pkgs1.len() && 0 <= j < self.carrier.proposals@.len() && (pkgs1[i].status
                    == PackageStatus::Assigned || pkgs1[i].status == PackageStatus::InTransit)
                    && pkgs1[i].carrier is Some && prop_key_is(
                    self.carrier.proposals@[j],
                    pkgs1[i].client,
                    pkgs1[i].id@,
                    pkgs1[i].carrier->Some_0,
                ) implies self.carrier.proposals@[j].maximum_fee_amount <= u64::MAX by {
                assert(pkgs1[i] == pkgs0[i]);
            }
            assert forall|j: int|
                0 <= j < self.package.concluded_packages@.len() implies has_pkg(
                pkgs1,
                (#[trigger] self.package.concluded_packages@[j]).0,
                self.package.concluded_packages@[j].1@,
            ) by {
                let e = self.package.concluded_packages@[j];
                if j < queue0.len() {
                    assert(e == queue0[j]);
                    let w = choose|w: int|
                        0 <= w < pkgs0.len() && #[trigger] pkg_key_is(pkgs0[w], e.0, e.1@);
                    if w == i0 {
                        assert(pkg_key_is(pkgs1[i0], e.0, e.1@));
                    } else {
                        assert(pkg_key_is(pkgs1[w], e.0, e.1@));
                    }
                } else {
                    assert(pkg_key_is(pkgs1[i0], who, package_id@));
                }
            }
            assert forall|j: int, i: int|
                #![trigger self.package.concluded_packages@[j], pkgs1[i]]
                0 <= j < self.package.concluded_packages@.len() && 0 <= i < pkgs1.len()
                    && pkg_key_is(
                    pkgs1[i],
                    self.package.concluded_packages@[j].0,
                    self.package.concluded_packages@[j].1@,
                ) implies status_is_terminal(pkgs1[i].status) by {
                if i != i0 {
                    assert(pkgs1[i] == pkgs0[i]);
                    let e = self.package.concluded_packages@[j];
                    if j < queue0.len() {
                        assert(e == queue0[j]);
                    } else {
                        package::lemma_pkg_index_unique(pkgs0, who, package_id@, i, i0);
                    }
                }
            }
            assert forall|i: int, j: int|
                #![trigger pkgs0[i], pkgs1[j]]
                0 <= i < pkgs0.len() && 0 <= j < pkgs1.len() && pkgs0[i].client == pkgs1[j].client
                    && pkgs0[i].id@ == pkgs1[j].id@ implies status_reachable(
                pkgs0[i].status,
                pkgs1[j].status,
            ) by {
                if j == i0 {
                    package::lemma_pkg_index_unique(pkgs0, who, package_id@, i, i0);
                } else {
                    assert(pkgs1[j] == pkgs0[j]);
                    package::lemma_pkg_index_unique(pkgs0, pkgs0[j].client, pkgs0[j].id@, i, j);
                }
            }
        }
        Ok(())
    }

    /// The carrier `who` collects the package at the current block height:
    /// it must exist, be assigned to `who`, and not yet have been collected.
    pub fn package_collect(&mut self, who: AccountId, package_id: PackageId, client: AccountId)
        -> (r: Result<(), package::Error>)
        requires
            old(self).wf(),
        ensures
            final(self).wf(),
            final(self).now == old(self).now,
            final(self).package.config == old(self).package.config,
            final(self).package.manifests@ == old(self).package.manifests@,
            final(self).package.concluded_packages@ == old(self).package.concluded_packages@,
            final(self).carrier == old(self).carrier,
            final(self).ledger == old(self).ledger,
            final(self).events@ == old(self).events@,
            packages_progress(old(self).package.packages@, final(self).package.packages@),
            match r {
                Ok(()) => exists|i: int|
                    0 <= i < old(self).package.packages@.len() && #[trigger] pkg_key_is(
                        old(self).package.packages@[i],
                        client,
                        package_id@,
                    ) && old(self).package.packages@[i].carrier == Some(who) && old(self).package.packages@[i].status == PackageStatus::Assigned && final(self).package.packages@ == old(self).package.packages@.update(
                        i,
                        (Package {
                            collected_on: Some(old(self).now),
                            status: PackageStatus::InTransit,
                            ..old(self).package.packages@[i]
                        }),
                    ) && final(self).package.events@ == old(self).package.events@.push(
                        package::Event::PackageCollected {
                            client,
                            package: package_id,
                            carrier: who,
                        },
                    ),
                Err(package::Error::PackageDoesNotExist) => !has_pkg(
                    old(self).package.packages@,
                    client,
                    package_id@,
                ) && *final(self) == *old(self),
                Err(package::Error::InvalidCarrier) => (exists|i: int|
                    0 <= i < old(self).package.packages@.len() && #[trigger] pkg_key_is(
                        old(self).package.packages@[i],
                        client,
                        package_id@,
                    ) && old(self).package.packages@[i].carrier != Some(who)) && *final(self)
                    == *old(self),
                Err(package::Error::PackageCannotBeCollected) => (exists|i: int|
                    0 <= i < old(self).package.packages@.len() && #[trigger] pkg_key_is(
                        old(self).package.packages@[i],
                        client,
                        package_id@,
                    ) && old(self).package.packages@[i].carrier == Some(who) && old(self).package.packages@[i].status != PackageStatus::Assigned) && *final(self)
                    == *old(self),
                Err(_) => false,
            },
    {
        let ghost pkgs0 = self.package.packages@;
        let ghost queue0 = self.package.concluded_packages@;
        let r = self.package.package_collect(who, package_id, client, self.now);
        proof {
            if r is Ok {
                let pkgs1 = self.package.packages@;
                let i0 = choose|i0: int|
                    0 <= i0 < pkgs0.len() && #[trigger] pkg_key_is(pkgs0[i0], client, package_id@)
                        && pkgs0[i0].carrier == Some(who) && pkgs0[i0].status
                        == PackageStatus::Assigned && pkgs1 == pkgs0.update(
                        i0,
                        (Package {
                            collected_on: Some(old(self).now),
                            status: PackageStatus::InTransit,
                            ..pkgs0[i0]
                        }),
                    );
                assert forall|i: int|
                    0 <= i < pkgs1.len() && ((#[trigger] pkgs1[i]).status
                        == PackageStatus::Assigned || pkgs1[i].status == PackageStatus::InTransit)
                    implies pkgs1[i].carrier is Some && has_prop(
                    self.carrier.proposals@,
                    pkgs1[i].client,
                    pkgs1[i].id@,
                    pkgs1[i].carrier->Some_0,
                ) by {
                    if i != i0 {
                        assert(pkgs1[i] == pkgs0[i]);
                    } else {
                        assert(pkgs0[i0].carrier is Some);
                    }
                }
                assert forall|i: int, j: int|
                    #![trigger pkgs1[i], self.carrier.proposals@[j]]
                    0 <= i < pkgs1.len() && 0 <= j < self.carrier.proposals@.len() && (pkgs1[
                    i].status == PackageStatus::Assigned || pkgs1[i].status
                        == PackageStatus::InTransit) && pkgs1[i].carrier is Some && prop_key_is(
                        self.carrier.proposals@[j],
                        pkgs1[i].client,
                        pkgs1[i].id@,
                        pkgs1[i].carrier->Some_0,
                    ) implies self.carrier.proposals@[j].maximum_fee_amount <= u64::MAX by {
                    if i != i0 {
                        assert(pkgs1[i] == pkgs0[i]);
                    } else {
                        assert(pkgs0[i0].status == PackageStatus::Assigned);
                        assert(pkgs1[i0].client == pkgs0[i0].client && pkgs1[i0].id@ == pkgs0[
                        i0].id@ && pkgs1[i0].carrier == pkgs0[i0].carrier);
                    }
                }
                assert forall|j: int|
                    0 <= j < self.package.concluded_packages@.len() implies has_pkg(
                    pkgs1,
                    (#[trigger] self.package.concluded_packages@[j]).0,
                    self.package.concluded_packages@[j].1@,
                ) by {
                    let e = self.package.concluded_packages@[j];
                    let w = choose|w: int|
                        0 <= w < pkgs0.len() && #[trigger] pkg_key_is(pkgs0[w], e.0, e.1@);
                    if w == i0 {
                        assert(pkg_key_is(pkgs1[i0], e.0, e.1@));
                    } else {
                        assert(pkg_key_is(pkgs1[w], e.0, e.1@));
                    }
                }
                assert forall|j: int, i: int|
                    #![trigger self.package.concluded_packages@[j], pkgs1[i]]
                    0 <= j < self.package.concluded_packages@.len() && 0 <= i < pkgs1.len()
                        && pkg_key_is(
                        pkgs1[i],
                        self.package.concluded_packages@[j].0,
                        self.package.concluded_packages@[j].1@,
                    ) implies status_is_terminal(pkgs1[i].status) by {
                    let e = self.package.concluded_packages@[j];
                    if i == i0 {
                        assert(pkg_key_is(pkgs0[i0], e.0, e.1@));
                        assert(false);
                    } else {
                        assert(pkgs1[i] == pkgs0[i]);
                    }
                }
                assert forall|i: int, j: int|
                    #![trigger pkgs0[i], pkgs1[j]]
                    0 <= i < pkgs0.len() && 0 <= j < pkgs1.len() && pkgs0[i].client == pkgs1[
                    j].client && pkgs0[i].id@ == pkgs1[j].id@ implies status_reachable(
                    pkgs0[i].status,
                    pkgs1[j].status,
                ) by {
                    if j == i0 {
                        package::lemma_pkg_index_unique(pkgs0, client, package_id@, i, i0);
                    } else {
                        assert(pkgs1[j] == pkgs0[j]);
                        package::lemma_pkg_index_unique(pkgs0, pkgs0[j].client, pkgs0[j].id@, i, j);
                    }
                }
            }
        }
        r
    }

    /// Atomically delivers `(who, package_id)` by its assigned `carrier`:
    /// requires the package to be in transit and `carrier` to be the one on
    /// record, computes the final fee from the accepted bid's penalty
    /// schedule, releases the fee reservation, pays the final fee to the
    /// carrier keeping the client's account alive, and releases the base
    /// deposit.  Every fallible step runs before the first mutation, so a
    /// funds failure leaves all stores untouched.
    #[verifier::rlimit(100)]
    pub fn package_deliver(&mut self, who: AccountId, package_id: PackageId, carrier: AccountId)
        -> (r: Result<(), Error>)
        requires
            old(self).wf(),
        ensures
            final(self).wf(),
            final(self).now == old(self).now,
            final(self).package.config == old(self).package.config,
            final(self).package.manifests@ == old(self).package.manifests@,
            final(self).carrier == old(self).carrier,
            final(self).ledger.minimum_balance == old(self).ledger.minimum_balance,
            packages_progress(old(self).package.packages@, final(self).package.packages@),
            forall|b: AccountId|
                #![trigger final(self).ledger.free_of(b)]
                #![trigger final(self).ledger.reserved_of(b)]
                b != who && b != carrier ==> final(self).ledger.free_of(b) == old(self).ledger.free_of(b) && final(self).ledger.reserved_of(b) == old(self).ledger.reserved_of(b),
            final(self).ledger.reserved_of(carrier) == old(self).ledger.reserved_of(carrier) || who
                == carrier,
            match r {
                Ok(()) => (exists|i: int|
                    0 <= i < old(self).package.packages@.len() && #[trigger] pkg_key_is(
                        old(self).package.packages@[i],
                        who,
                        package_id@,
                    ) && old(self).package.packages@[i].status == PackageStatus::InTransit && old(self).package.packages@[i].carrier == Some(carrier) && final(self).package.packages@ == old(self).package.packages@.update(
                        i,
                        (Package {
                            delivered_on: Some(old(self).now),
                            status: PackageStatus::Delivered,
                            ..old(self).package.packages@[i]
                        }),
                    )) && final(self).package.concluded_packages@ == (
                if old(self).package.concluded_packages@.len()
                    < old(self).package.config.max_concluded_packages {
                    old(self).package.concluded_packages@.push((who, package_id))
                } else {
                    old(self).package.concluded_packages@
                }) && final(self).package.events@ == old(self).package.events@.push(
                    package::Event::PackageDelivered { client: who, package: package_id },
                ) && final(self).events@ == old(self).events@.push(
                    Event::PackageDelivered { client: who, package: package_id },
                ) && (forall|i: int, j: int|
                    #![trigger old(self).package.packages@[i], old(self).carrier.proposals@[j]]
                    0 <= i < old(self).package.packages@.len() && 0 <= j < old(self).carrier.proposals@.len() && pkg_key_is(
                        old(self).package.packages@[i],
                        who,
                        package_id@,
                    ) && prop_key_is(
                        old(self).carrier.proposals@[j],
                        who,
                        package_id@,
                        carrier,
                    ) ==> ({
                        let p = old(self).carrier.proposals@[j];
                        let collected = if old(self).package.packages@[i].collected_on is Some {
                            old(self).package.packages@[i].collected_on->Some_0
                        } else {
                            old(self).now
                        };
                        let fee = carrier::final_fee_math(
                            p.maximum_fee_amount,
                            p.minimum_fee_amount,
                            p.penalty_period,
                            p.penalty_amount,
                            collected,
                            old(self).now,
                        );
                        let fee_balance: int = if fee > u64::MAX {
                            u64::MAX as int
                        } else {
                            fee
                        };
                        let max_fee = p.maximum_fee_amount;
                        let moved_fee: int = if max_fee <= old(self).ledger.reserved_of(who) {
                            max_fee as int
                        } else {
                            old(self).ledger.reserved_of(who) as int
                        };
                        let reserved_mid = old(self).ledger.reserved_of(who) - moved_fee;
                        let moved_deposit: int = if old(self).package.config.ernest_deposit
                            <= reserved_mid {
                            old(self).package.config.ernest_deposit as int
                        } else {
                            reserved_mid
                        };
                        &&& final(self).ledger.reserved_of(who) == reserved_mid - moved_deposit
                        &&& (who != carrier ==> final(self).ledger.free_of(who) == old(self).ledger.free_of(who) + moved_fee - fee_balance + moved_deposit && final(self).ledger.free_of(carrier) == old(self).ledger.free_of(carrier)
                            + fee_balance)
                        &&& (who == carrier ==> final(self).ledger.free_of(who) == old(self).ledger.free_of(who) + moved_fee + moved_deposit)
                    })),
                Err(Error::Package(package::Error::InvalidPackage)) => !pkg_with_status(
                    old(self).package.packages@,
                    who,
                    package_id@,
                    PackageStatus::InTransit,
                ) && *final(self) == *old(self),
                Err(Error::Package(package::Error::InvalidCarrier)) => pkg_with_status(
                    old(self).package.packages@,
                    who,
                    package_id@,
                    PackageStatus::InTransit,
                ) && (exists|i: int|
                    0 <= i < old(self).package.packages@.len() && #[trigger] pkg_key_is(
                        old(self).package.packages@[i],
                        who,
                        package_id@,
                    ) && old(self).package.packages@[i].carrier != Some(carrier)) && *final(self)
                    == *old(self),
                Err(Error::InsufficientFunds) => pkg_with_status(
                    old(self).package.packages@,
                    who,
                    package_id@,
                    PackageStatus::InTransit,
                ) && (exists|i: int|
                    0 <= i < old(self).package.packages@.len() && #[trigger] pkg_key_is(
                        old(self).package.packages@[i],
                        who,
                        package_id@,
                    ) && old(self).package.packages@[i].carrier == Some(carrier)) && (forall|
                    i: int,
                    j: int,
                |
                    #![trigger old(self).package.packages@[i], old(self).carrier.proposals@[j]]
                    0 <= i < old(self).package.packages@.len() && 0 <= j < old(self).carrier.proposals@.len() && pkg_key_is(
                        old(self).package.packages@[i],
                        who,
                        package_id@,
                    ) && prop_key_is(
                        old(self).carrier.proposals@[j],
                        who,
                        package_id@,
                        carrier,
                    ) ==> !deliver_funds_feasible(
                        *old(self),
                        who,
                        carrier,
                        old(self).package.packages@[i],
                        old(self).carrier.proposals@[j],
                    )) && *final(self) == *old(self),
                Err(_) => false,
            },
    {
        if !self.package.package_is_in_transit(who, &package_id) {
            return Err(Error::Package(package::Error::InvalidPackage));
        }
        let ghost pkgs0 = self.package.packages@;
        let ghost props0 = self.carrier.proposals@;
        let ghost queue0 = self.package.concluded_packages@;
        let package_carrier = match self.package.package_carrier(who, &package_id) {
            Some(c) => c,
            None => None,
        };
        let carrier_matches = match package_carrier {
            Some(k) => k == carrier,
            None => false,
        };
        if !carrier_matches {
            proof {
                let w = choose|w: int|
                    0 <= w < pkgs0.len() && #[trigger] pkg_key_is(pkgs0[w], who, package_id@)
                        && pkgs0[w].status == PackageStatus::InTransit;
                assert(pkgs0[w].carrier != Some(carrier));
            }
            return Err(Error::Package(package::Error::InvalidCarrier));
        }
        let ghost i0 = choose|i0: int|
            0 <= i0 < pkgs0.len() && #[trigger] pkg_key_is(pkgs0[i0], who, package_id@) && pkgs0[
            i0].status == PackageStatus::InTransit;
        proof {
            assert(pkgs0[i0].carrier == Some(carrier));
            assert(has_prop(props0, who, package_id@, carrier));
        }
        let collected_on = match self.package.package_collected_on(who, &package_id) {
            Some(Some(c)) => c,
            _ => self.now,
        };
        proof {
            assert(collected_on <= self.now);
        }
        let final_fee = match self.carrier.calculate_final_fee_amount(
            who,
            &package_id,
            carrier,
            collected_on,
            self.now,
        ) {
            Ok(f) => f,
            Err(e) => {
                return Err(Error::Carrier(e));
            },
        };
        let maximum_fee = match self.carrier.proposal_maximum_fee_amount(who, &package_id, carrier)
        {
            Some(v) => v,
            None => 0,
        };
        if maximum_fee > u64::MAX as u128 {
            proof {
                let w = choose|w: int|
                    0 <= w < props0.len() && #[trigger] prop_key_is(
                        props0[w],
                        who,
                        package_id@,
                        carrier,
                    );
            }
            return Err(Error::InvalidFee);
        }
        let maximum_fee_balance = maximum_fee as u64;
        let fee_balance: u64 = if final_fee > u64::MAX as u128 {
            u64::MAX
        } else {
            final_fee as u64
        };
        // Check that the whole settlement can go through before mutating
        // anything: release of the fee reservation, keep-alive payment of
        // the final fee, release of the base deposit.
        let client_free = self.ledger.free_balance(who);
        let client_reserved = self.ledger.reserved_balance(who);
        proof {
            crate::ledger::lemma_total_bounded(self.ledger.accounts@, who);
        }
        let moved_fee = if maximum_fee_balance <= client_reserved {
            maximum_fee_balance
        } else {
            client_reserved
        };
        let client_free_mid = client_free + moved_fee;
        let mut feasible = fee_balance <= client_free_mid && client_free_mid - fee_balance
            >= self.ledger.minimum_balance;
        if feasible && carrier != who {
            let carrier_free = self.ledger.free_balance(carrier);
            let carrier_reserved = self.ledger.reserved_balance(carrier);
            feasible = carrier_free as u128 + carrier_reserved as u128 + fee_balance as u128
                <= u64::MAX as u128;
        }
        if !feasible {
            proof {
                assert forall|i: int, j: int|
                    #![trigger pkgs0[i], props0[j]]
                    0 <= i < pkgs0.len() && 0 <= j < props0.len() && pkg_key_is(
                        pkgs0[i],
                        who,
                        package_id@,
                    ) && prop_key_is(props0[j], who, package_id@, carrier) implies
                    !deliver_funds_feasible(
                        *old(self),
                        who,
                        carrier,
                        pkgs0[i],
                        props0[j],
                    ) by {
                    package::lemma_pkg_index_unique(pkgs0, who, package_id@, i, i0);
                    let w = choose|w: int|
                        0 <= w < props0.len() && #[trigger] prop_key_is(
                            props0[w],
                            who,
                            package_id@,
                            carrier,
                        ) && final_fee == carrier::final_fee_math(
                            props0[w].maximum_fee_amount,
                            props0[w].minimum_fee_amount,
                            props0[w].penalty_period,
                            props0[w].penalty_amount,
                            collected_on,
                            self.now,
                        );
                    carrier::lemma_prop_index_unique(props0, who, package_id@, carrier, w, j);
                }
            }
            return Err(Error::InsufficientFunds);
        }
        // Commit: all fallible checks are behind us.
        match self.package.deliver_package(who, &package_id, self.now) {
            Ok(()) => {},
            Err(e) => {
                return Err(Error::Package(e));
            },
        }
        self.ledger.unreserve(who, maximum_fee_balance);
        let transferred = self.ledger.transfer_keep_alive(who, carrier, fee_balance);
        proof {
            assert(transferred);
        }
        self.ledger.unreserve(who, self.package.config.ernest_deposit);
        self.events.push(Event::PackageDelivered { client: who, package: package_id });
        proof {
            let pkgs1 = self.package.packages@;
            let i1 = choose|i1: int|
                0 <= i1 < pkgs0.len() && #[trigger] pkg_key_is(pkgs0[i1], who, package_id@)
                    && pkgs1 == pkgs0.update(
                    i1,
                    (Package {
                        delivered_on: Some(old(self).now),
                        status: PackageStatus::Delivered,
                        ..pkgs0[i1]
                    }),
                );
            assert(pkgs0[i1].status == PackageStatus::InTransit && pkgs0[i1].carrier == Some(
                carrier,
            )) by {
                package::lemma_pkg_index_unique(pkgs0, who, package_id@, i0, i1);
            }
            self.lemma_wf_after_deliver(*old(self), who, package_id, carrier, i1);
            assert forall|i: int, j: int|
                #![trigger pkgs0[i], props0[j]]
                0 <= i < pkgs0.len() && 0 <= j < props0.len() && pkg_key_is(
                    pkgs0[i],
                    who,
                    package_id@,
                ) && prop_key_is(props0[j], who, package_id@, carrier) implies ({
                let p = props0[j];
                let collected = if pkgs0[i].collected_on is Some {
                    pkgs0[i].collected_on->Some_0
                } else {
                    old(self).now
                };
                let fee = carrier::final_fee_math(
                    p.maximum_fee_amount,
                    p.minimum_fee_amount,
                    p.penalty_period,
                    p.penalty_amount,
                    collected,
                    old(self).now,
                );
                let fee_b: int = if fee > u64::MAX {
                    u64::MAX as int
                } else {
                    fee
                };
                let max_fee = p.maximum_fee_amount;
                let moved_f: int = if max_fee <= old(self).ledger.reserved_of(who) {
                    max_fee as int
                } else {
                    old(self).ledger.reserved_of(who) as int
                };
                let reserved_mid = old(self).ledger.reserved_of(who) - moved_f;
                let moved_d: int = if old(self).package.config.ernest_deposit <= reserved_mid {
                    old(self).package.config.ernest_deposit as int
                } else {
                    reserved_mid
                };
                &&& final(self).ledger.reserved_of(who) == reserved_mid - moved_d
                &&& (who != carrier ==> final(self).ledger.free_of(who) == old(self).ledger.free_of(who) + moved_f - fee_b + moved_d && final(self).ledger.free_of(
                    carrier,
                ) == old(self).ledger.free_of(carrier) + fee_b)
                &&& (who == carrier ==> final(self).ledger.free_of(who) == old(self).ledger.free_of(who) + moved_f + moved_d)
            }) by {
                package::lemma_pkg_index_unique(pkgs0, who, package_id@, i, i0);
                let w = choose|w: int|
                    0 <= w < props0.len() && #[trigger] prop_key_is(
                        props0[w],
                        who,
                        package_id@,
                        carrier,
                    ) && final_fee == carrier::final_fee_math(
                        props0[w].maximum_fee_amount,
                        props0[w].minimum_fee_amount,
                        props0[w].penalty_period,
                        props0[w].penalty_amount,
                        collected_on,
                        old(self).now,
                    );
                carrier::lemma_prop_index_unique(props0, who, package_id@, carrier, w, j);
            }
        }
        Ok(())
    }

    /// The per-block sweeper: advances the clock to `n`, drains the
    /// concluded-entry queue and deletes, for each drained key, the package,
    /// its manifest and every bid on it.  Best-effort cleanup: it moves no
    /// funds and emits no events.
    pub fn on_initialize(&mut self, n: BlockNumber)
        requires
            old(self).wf(),
            n >= old(self).now,
        ensures
            final(self).wf(),
            final(self).now == n,
            final(self).ledger == old(self).ledger,
            final(self).package.config == old(self).package.config,
            final(self).events@ == old(self).events@,
            final(self).package.events@ == old(self).package.events@,
            final(self).carrier.events@ == old(self).carrier.events@,
            final(self).package.concluded_packages@.len() == 0,
            final(self).package.packages@ == package::remaining_packages(
                old(self).package.packages@,
                old(self).package.concluded_packages@,
            ),
            final(self).package.manifests@ == package::remaining_manifests(
                old(self).package.manifests@,
                old(self).package.concluded_packages@,
            ),
            final(self).carrier.proposals@ == proposals_after_sweep(
                old(self).carrier.proposals@,
                old(self).package.concluded_packages@,
            ),
            packages_progress(old(self).package.packages@, final(self).package.packages@),
    {
        self.now = n;
        let ghost pkgs0 = self.package.packages@;
        let ghost props0 = self.carrier.proposals@;
        let ghost queue0 = self.package.concluded_packages@;
        let drained = self.package.remove_concluded_packages_and_manifests();
        let ghost package_done = self.package;
        let ghost pkgs1 = self.package.packages@;
        let ghost ledger0 = self.ledger;
        let ghost sevents0 = self.events@;
        let ghost cevents0 = self.carrier.events@;
        proof {
            package::lemma_remaining_packages_membership(pkgs0, queue0);
            package::lemma_remaining_packages_not_entries(pkgs0, queue0);
            assert forall|i: int|
                0 <= i < pkgs1.len() && ((#[trigger] pkgs1[i]).status == PackageStatus::Assigned
                    || pkgs1[i].status == PackageStatus::InTransit) implies pkgs1[i].carrier
                is Some && has_prop(props0, pkgs1[i].client, pkgs1[i].id@, pkgs1[i].carrier->Some_0)
                by {
                let w = choose|w: int| 0 <= w < pkgs0.len() && pkgs0[w] == #[trigger] pkgs1[i];
            }
            assert forall|i: int, j: int|
                #![trigger pkgs1[i], props0[j]]
                0 <= i < pkgs1.len() && 0 <= j < props0.len() && (pkgs1[i].status
                    == PackageStatus::Assigned || pkgs1[i].status == PackageStatus::InTransit)
                    && pkgs1[i].carrier is Some && prop_key_is(
                    props0[j],
                    pkgs1[i].client,
                    pkgs1[i].id@,
                    pkgs1[i].carrier->Some_0,
                ) implies props0[j].maximum_fee_amount <= u64::MAX by {
                let w = choose|w: int| 0 <= w < pkgs0.len() && pkgs0[w] == #[trigger] pkgs1[i];
            }
            assert forall|i: int|
                0 <= i < pkgs1.len() && (#[trigger] pkgs1[i]).collected_on is Some implies pkgs1[
            i].collected_on->Some_0 <= n by {
                let w = choose|w: int| 0 <= w < pkgs0.len() && pkgs0[w] == #[trigger] pkgs1[i];
            }
            assert forall|i: int, j: int|
                #![trigger pkgs0[i], pkgs1[j]]
                0 <= i < pkgs0.len() && 0 <= j < pkgs1.len() && pkgs0[i].client == pkgs1[j].client
                    && pkgs0[i].id@ == pkgs1[j].id@ implies status_reachable(
                pkgs0[i].status,
                pkgs1[j].status,
            ) by {
                let w = choose|w: int| 0 <= w < pkgs0.len() && pkgs0[w] == #[trigger] pkgs1[j];
                package::lemma_pkg_index_unique(pkgs0, pkgs0[w].client, pkgs0[w].id@, i, w);
            }
        }
        let total = drained.len();
        let mut idx: usize = 0;
        while idx < total
            invariant
                idx <= total,
                total == queue0.len(),
                drained@ == queue0,
                self.package == package_done,
                pkgs1 == package_done.packages@,
                self.ledger == ledger0,
                self.now == n,
                self.events@ == sevents0,
                self.carrier.events@ == cevents0,
                self.carrier.wf(),
                self.carrier.proposals@ == proposals_after_sweep(props0, queue0.take(idx as int)),
                forall|j: int|
                    0 <= j < pkgs1.len() ==> !in_entries(
                        queue0,
                        (#[trigger] pkgs1[j]).client,
                        pkgs1[j].id@,
                    ),
                forall|i: int|
                    0 <= i < pkgs1.len() && ((#[trigger] pkgs1[i]).status
                        == PackageStatus::Assigned || pkgs1[i].status == PackageStatus::InTransit)
                        ==> pkgs1[i].carrier is Some && has_prop(
                        self.carrier.proposals@,
                        pkgs1[i].client,
                        pkgs1[i].id@,
                        pkgs1[i].carrier->Some_0,
                    ),
                forall|i: int, j: int|
                    #![trigger pkgs1[i], self.carrier.proposals@[j]]
                    0 <= i < pkgs1.len() && 0 <= j < self.carrier.proposals@.len() && (pkgs1[
                    i].status == PackageStatus::Assigned || pkgs1[i].status
                        == PackageStatus::InTransit) && pkgs1[i].carrier is Some && prop_key_is(
                        self.carrier.proposals@[j],
                        pkgs1[i].client,
                        pkgs1[i].id@,
                        pkgs1[i].carrier->Some_0,
                    ) ==> self.carrier.proposals@[j].maximum_fee_amount <= u64::MAX,
                forall|j: int|
                    0 <= j < self.carrier.proposals@.len() ==> (#[trigger] self.carrier.proposals@[
                    j]).penalty_period > 0,
                forall|i: int, j: int|
                    #![trigger self.carrier.proposals@[i], self.carrier.proposals@[j]]
                    0 <= i < j < self.carrier.proposals@.len() && self.carrier.proposals@[i].client
                        == self.carrier.proposals@[j].client && self.carrier.proposals@[i].package@
                        == self.carrier.proposals@[j].package@ ==> !(self.carrier.proposals@[
                    i].status == ProposalStatus::Accepted && self.carrier.proposals@[j].status
                        == ProposalStatus::Accepted),
            decreases total - idx,
        {
            let entry = drained[idx];
            let ghost cur = self.carrier.proposals@;
            proof {
                assert(queue0.take(idx as int + 1).drop_last() =~= queue0.take(idx as int));
                assert(queue0.take(idx as int + 1).last() == queue0[idx as int]);
            }
            self.carrier.remove_concluded_proposals(entry.0, entry.1);
            proof {
                let nxt = self.carrier.proposals@;
                carrier::lemma_remaining_proposals_membership(cur, entry.0@, entry.1@);
                assert(nxt == carrier::remaining_proposals(cur, entry.0, entry.1@));
                assert forall|i: int|
                    0 <= i < pkgs1.len() && ((#[trigger] pkgs1[i]).status
                        == PackageStatus::Assigned || pkgs1[i].status == PackageStatus::InTransit)
                    implies pkgs1[i].carrier is Some && has_prop(
                    nxt,
                    pkgs1[i].client,
                    pkgs1[i].id@,
                    pkgs1[i].carrier->Some_0,
                ) by {
                    assert(entry == queue0[idx as int]);
                    assert(!(pkgs1[i].client == entry.0 && pkgs1[i].id@ == entry.1@));
                    carrier::lemma_remaining_proposals_has_prop(
                        cur,
                        entry.0,
                        entry.1@,
                        pkgs1[i].client,
                        pkgs1[i].id@,
                        pkgs1[i].carrier->Some_0,
                    );
                }
                assert forall|i: int, j: int|
                    #![trigger pkgs1[i], nxt[j]]
                    0 <= i < pkgs1.len() && 0 <= j < nxt.len() && (pkgs1[i].status
                        == PackageStatus::Assigned || pkgs1[i].status == PackageStatus::InTransit)
                        && pkgs1[i].carrier is Some && prop_key_is(
                        nxt[j],
                        pkgs1[i].client,
                        pkgs1[i].id@,
                        pkgs1[i].carrier->Some_0,
                    ) implies nxt[j].maximum_fee_amount <= u64::MAX by {
                    let v = choose|v: int| 0 <= v < cur.len() && cur[v] == #[trigger] nxt[j];
                }
                assert forall|j: int|
                    0 <= j < nxt.len() implies (#[trigger] nxt[j]).penalty_period > 0 by {
                    let v = choose|v: int| 0 <= v < cur.len() && cur[v] == #[trigger] nxt[j];
                }
                assert forall|i: int, j: int|
                    #![trigger nxt[i], nxt[j]]
                    0 <= i < j < nxt.len() && nxt[i].client == nxt[j].client && nxt[i].package@
                        == nxt[j].package@ implies !(nxt[i].status == ProposalStatus::Accepted
                    && nxt[j].status == ProposalStatus::Accepted) by {
                    if nxt[i].status == ProposalStatus::Accepted && nxt[j].status
                        == ProposalStatus::Accepted {
                        let w1 = choose|w1: int| 0 <= w1 < cur.len() && cur[w1] == #[trigger] nxt[i];
                        let w2 = choose|w2: int| 0 <= w2 < cur.len() && cur[w2] == #[trigger] nxt[j];
                        if w1 == w2 {
                            assert(nxt[i].carrier == nxt[j].carrier);
                            assert(false);
                        } else if w1 < w2 {
                            assert(false);
                        } else {
                            assert(false);
                        }
                    }
                }
            }
            idx += 1;
        }
        proof {
            assert(queue0.take(total as int) =~= queue0);
        }
    }

    /// The cross-entity facts survive committing a delivery: the package
    /// flips from `InTransit` to the terminal `Delivered`, is queued for the
    /// sweeper where room remains, and everything else stands.
    proof fn lemma_wf_after_deliver(
        self,
        pre: Pallet,
        who: AccountId,
        package_id: PackageId,
        carrier_id: AccountId,
        i1: int,
    )
        requires
            pre.wf(),
            0 <= i1 < pre.package.packages@.len(),
            pkg_key_is(pre.package.packages@[i1], who, package_id@),
            pre.package.packages@[i1].status == PackageStatus::InTransit,
            self.package.packages@ == pre.package.packages@.update(
                i1,
                (Package {
                    delivered_on: Some(pre.now),
                    status: PackageStatus::Delivered,
                    ..pre.package.packages@[i1]
                }),
            ),
            self.carrier == pre.carrier,
            self.now == pre.now,
            self.package.concluded_packages@ == (
            if pre.package.concluded_packages@.len() < pre.package.config.max_concluded_packages {
                pre.package.concluded_packages@.push((who, package_id))
            } else {
                pre.package.concluded_packages@
            }),
        ensures
            self.assigned_have_proposals(),
            self.assigned_fees_fit(),
            self.at_most_one_accepted(),
            self.clock_consistent(),
            self.periods_positive(),
            self.concluded_are_terminal(),
            packages_progress(pre.package.packages@, self.package.packages@),
    {
        let pkgs0 = pre.package.packages@;
        let props0 = pre.carrier.proposals@;
        let queue0 = pre.package.concluded_packages@;
        let pkgs1 = self.package.packages@;
        assert forall|i: int|
            0 <= i < pkgs1.len() && ((#[trigger] pkgs1[i]).status == PackageStatus::Assigned
                || pkgs1[i].status == PackageStatus::InTransit) implies pkgs1[i].carrier is Some
            && has_prop(props0, pkgs1[i].client, pkgs1[i].id@, pkgs1[i].carrier->Some_0) by {
            assert(pkgs1[i] == pkgs0[i]);
        }
        assert forall|i: int, j: int|
            #![trigger pkgs1[i], props0[j]]
            0 <= i < pkgs1.len() && 0 <= j < props0.len() && (pkgs1[i].status
                == PackageStatus::Assigned || pkgs1[i].status == PackageStatus::InTransit)
                && pkgs1[i].carrier is Some && prop_key_is(
                props0[j],
                pkgs1[i].client,
                pkgs1[i].id@,
                pkgs1[i].carrier->Some_0,
            ) implies props0[j].maximum_fee_amount <= u64::MAX by {
            assert(pkgs1[i] == pkgs0[i]);
        }
        assert forall|j: int|
            0 <= j < self.package.concluded_packages@.len() implies has_pkg(
            pkgs1,
            (#[trigger] self.package.concluded_packages@[j]).0,
            self.package.concluded_packages@[j].1@,
        ) by {
            let e = self.package.concluded_packages@[j];
            if j < queue0.len() {
                assert(e == queue0[j]);
                let w = choose|w: int|
                    0 <= w < pkgs0.len() && #[trigger] pkg_key_is(pkgs0[w], e.0, e.1@);
                if w == i1 {
                    assert(pkg_key_is(pkgs1[i1], e.0, e.1@));
                } else {
                    assert(pkg_key_is(pkgs1[w], e.0, e.1@));
                }
            } else {
                assert(pkg_key_is(pkgs1[i1], who, package_id@));
            }
        }
        assert forall|j: int, i: int|
            #![trigger self.package.concluded_packages@[j], pkgs1[i]]
            0 <= j < self.package.concluded_packages@.len() && 0 <= i < pkgs1.len() && pkg_key_is(
                pkgs1[i],
                self.package.concluded_packages@[j].0,
                self.package.concluded_packages@[j].1@,
            ) implies status_is_terminal(pkgs1[i].status) by {
            if i != i1 {
                assert(pkgs1[i] == pkgs0[i]);
                let e = self.package.concluded_packages@[j];
                if j < queue0.len() {
                    assert(e == queue0[j]);
                } else {
                    package::lemma_pkg_index_unique(pkgs0, who, package_id@, i, i1);
                }
            }
        }
        assert forall|i: int, j: int|
            #![trigger pkgs0[i], pkgs1[j]]
            0 <= i < pkgs0.len() && 0 <= j < pkgs1.len() && pkgs0[i].client == pkgs1[j].client
                && pkgs0[i].id@ == pkgs1[j].id@ implies status_reachable(
            pkgs0[i].status,
            pkgs1[j].status,
        ) by {
            if j == i1 {
                package::lemma_pkg_index_unique(pkgs0, who, package_id@, i, i1);
            } else {
                assert(pkgs1[j] == pkgs0[j]);
                package::lemma_pkg_index_unique(pkgs0, pkgs0[j].client, pkgs0[j].id@, i, j);
            }
        }
    }

    /// The cross-entity facts survive resolving the bids on one package,
    /// given they held before and the packages and ledger are unchanged.
    proof fn lemma_wf_after_resolve(
        self,
        pre: Pallet,
        client: AccountId,
        id: Seq<u8>,
        carrier: AccountId,
    )
        requires
            pre.wf(),
            self.package == pre.package,
            self.ledger == pre.ledger,
            self.now == pre.now,
            self.carrier.wf(),
            self.carrier.proposals@ == resolve_proposals(pre.carrier.proposals@, client, id, carrier),
        ensures
            self.wf(),
    {
        let props0 = pre.carrier.proposals@;
        let props1 = self.carrier.proposals@;
        assert forall|i: int|
            0 <= i < self.package.packages@.len() && ((#[trigger] self.package.packages@[i]).status
                == PackageStatus::Assigned || self.package.packages@[i].status
                == PackageStatus::InTransit) implies self.package.packages@[i].carrier is Some
            && has_prop(
            props1,
            self.package.packages@[i].client,
            self.package.packages@[i].id@,
            self.package.packages@[i].carrier->Some_0,
        ) by {
            let p = self.package.packages@[i];
            let w = choose|w: int|
                0 <= w < props0.len() && #[trigger] prop_key_is(
                    props0[w],
                    p.client,
                    p.id@,
                    p.carrier->Some_0,
                );
            assert(prop_key_is(props1[w], p.client, p.id@, p.carrier->Some_0));
        }
        assert forall|i: int, j: int|
            #![trigger self.package.packages@[i], props1[j]]
            0 <= i < self.package.packages@.len() && 0 <= j < props1.len() && (
            self.package.packages@[i].status == PackageStatus::Assigned
                || self.package.packages@[i].status == PackageStatus::InTransit)
                && self.package.packages@[i].carrier is Some && prop_key_is(
                props1[j],
                self.package.packages@[i].client,
                self.package.packages@[i].id@,
                self.package.packages@[i].carrier->Some_0,
            ) implies props1[j].maximum_fee_amount <= u64::MAX by {
            assert(prop_key_is(
                props0[j],
                self.package.packages@[i].client,
                self.package.packages@[i].id@,
                self.package.packages@[i].carrier->Some_0,
            ));
        }
        assert forall|i: int, j: int|
            #![trigger props1[i], props1[j]]
            0 <= i < j < props1.len() && props1[i].client == props1[j].client && props1[i].package@
                == props1[j].package@ implies !(props1[i].status == ProposalStatus::Accepted
            && props1[j].status == ProposalStatus::Accepted) by {
            if prop_matches_package(props0[i], client, id) {
                if props1[i].status == ProposalStatus::Accepted && props1[j].status
                    == ProposalStatus::Accepted {
                    assert(props0[i].carrier == carrier && props0[j].carrier == carrier);
                    assert(false);
                }
            }
        }
        assert forall|j: int| 0 <= j < props1.len() implies (#[trigger] props1[j]).penalty_period
            > 0 by {
            assert(props1[j].penalty_period == props0[j].penalty_period);
        }
    }
}

} // verus!
