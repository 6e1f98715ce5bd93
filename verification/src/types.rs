//! Entity model: packages, manifests, proposals and their status enums.

use vstd::prelude::*;

verus! {

/// Identifier of a package, unique per client.
pub type PackageId = [u8; 32];

/// Identifier of an account (client or carrier) in the surrounding ledger.
pub type AccountId = u64;

/// Height of the enclosing chain's monotonic block clock.
pub type BlockNumber = u64;

/// Byte limit of a pickup or destination address.
pub const THREE_WORD_ADDRESS_MAX_LENGTH: usize = 256;

/// A pickup or destination in three-word-address style.  The byte limit is
/// enforced when a package is created, never afterwards relaxed.
pub type ThreeWordAddress = Vec<u8>;

/// Lifecycle of a package.  Legal transitions are
/// `New -> Assigned -> InTransit -> Delivered` and `New -> Cancelled`;
/// `Delivered` and `Cancelled` are terminal.
#[derive(Clone, Copy, PartialEq, Eq, Structural, Debug)]
pub enum PackageStatus {
    New,
    Assigned,
    InTransit,
    Delivered,
    Cancelled,
}

/// Lifecycle of a carrier's fee proposal.
#[derive(Clone, Copy, PartialEq, Eq, Structural, Debug)]
pub enum ProposalStatus {
    Proposed,
    Accepted,
    Rejected,
    Cancelled,
}

/// Physical dimensions recorded in a manifest.
#[derive(Clone, Copy, PartialEq, Eq, Structural, Debug)]
pub struct Dimensions {
    pub length: u32,
    pub width: u32,
    pub height: u32,
}

/// A shipment request owned by a client, keyed by `(client, id)`.
#[derive(Debug)]
pub struct Package {
    pub id: PackageId,
    pub client: AccountId,
    pub carrier: Option<AccountId>,
    pub pickup: ThreeWordAddress,
    pub destination: ThreeWordAddress,
    pub requested_on: BlockNumber,
    pub collected_on: Option<BlockNumber>,
    pub delivered_on: Option<BlockNumber>,
    pub status: PackageStatus,
}

/// Physical and handling metadata attached to a package; immutable after
/// creation and deleted only alongside its package.
#[derive(Debug)]
pub struct Manifest {
    pub description: Vec<u8>,
    pub dimensions: Dimensions,
    pub weight: u32,
    pub hazardous_materials: bool,
    pub climate_controlled: bool,
}

/// A carrier's fee bid for one package, keyed by `(client, package, carrier)`.
#[derive(Clone, Copy, Debug)]
pub struct Proposal {
    pub package: PackageId,
    pub client: AccountId,
    pub carrier: AccountId,
    pub maximum_fee_amount: u128,
    pub minimum_fee_amount: u128,
    pub penalty_period: u32,
    pub penalty_amount: u128,
    pub proposed_on: BlockNumber,
    pub status: ProposalStatus,
}

impl Package {
    /// A fresh `New` package requested at block `now`, not yet assigned,
    /// collected or delivered.
    pub fn new(
        id: PackageId,
        client: AccountId,
        pickup: ThreeWordAddress,
        destination: ThreeWordAddress,
        now: BlockNumber,
    ) -> (r: Package)
        ensures
            r == (Package {
                id,
                client,
                carrier: None,
                pickup,
                destination,
                requested_on: now,
                collected_on: None,
                delivered_on: None,
                status: PackageStatus::New,
            }),
    {
        Package {
            id,
            client,
            carrier: None,
            pickup,
            destination,
            requested_on: now,
            collected_on: None,
            delivered_on: None,
            status: PackageStatus::New,
        }
    }
}

impl Proposal {
    /// A fresh `Proposed` bid submitted at block `now`.
    pub fn new(
        package: PackageId,
        client: AccountId,
        carrier: AccountId,
        maximum_fee_amount: u128,
        minimum_fee_amount: u128,
        penalty_period: u32,
        penalty_amount: u128,
        now: BlockNumber,
    ) -> (r: Proposal)
        ensures
            r == (Proposal {
                package,
                client,
                carrier,
                maximum_fee_amount,
                minimum_fee_amount,
                penalty_period,
                penalty_amount,
                proposed_on: now,
                status: ProposalStatus::Proposed,
            }),
    {
        Proposal {
            package,
            client,
            carrier,
            maximum_fee_amount,
            minimum_fee_amount,
            penalty_period,
            penalty_amount,
            proposed_on: now,
            status: ProposalStatus::Proposed,
        }
    }
}

/// `b` lies on a forward path from `a` in the package state machine:
/// no committed operation ever moves a package's status outside this
/// relation, which is the reflexive-transitive closure of the edges
/// `New -> Assigned -> InTransit -> Delivered` and `New -> Cancelled`.
pub open spec fn status_reachable(a: PackageStatus, b: PackageStatus) -> bool {
    match a {
        PackageStatus::New => true,
        PackageStatus::Assigned => b == PackageStatus::Assigned || b == PackageStatus::InTransit
            || b == PackageStatus::Delivered,
        PackageStatus::InTransit => b == PackageStatus::InTransit || b
            == PackageStatus::Delivered,
        PackageStatus::Delivered => b == PackageStatus::Delivered,
        PackageStatus::Cancelled => b == PackageStatus::Cancelled,
    }
}

/// Reachability is transitive, so statuses never regress across any chain of
/// committed operations.
pub proof fn lemma_status_reachable_transitive(
    a: PackageStatus,
    b: PackageStatus,
    c: PackageStatus,
)
    requires
        status_reachable(a, b),
        status_reachable(b, c),
    ensures
        status_reachable(a, c),
{
}

/// A terminal status: the package is concluded and eligible for sweeping.
pub open spec fn status_is_terminal(s: PackageStatus) -> bool {
    s == PackageStatus::Delivered || s == PackageStatus::Cancelled
}


/// Byte-for-byte equality of two package identifiers.
pub fn package_id_eq(a: &PackageId, b: &PackageId) -> (r: bool)
    ensures
        r == (a@ == b@),
{
    let mut i: usize = 0;
    while i < 32
        invariant
            i <= 32,
            forall|j: int| 0 <= j < i ==> a@[j] == b@[j],
        decreases 32 - i,
    {
        if a[i] != b[i] {
            assert(a@[i as int] != b@[i as int]);
            return false;
        }
        i += 1;
    }
    proof {
        assert(a@ =~= b@);
    }
    true
}

} // verus!
