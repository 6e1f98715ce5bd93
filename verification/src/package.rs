//! Package lifecycle manager: owns package and manifest records, enforces
//! the package state machine, and feeds the concluded-entry queue that the
//! sweeper drains.

use vstd::prelude::*;

use crate::ledger::Ledger;
use crate::types::AccountId;
use crate::types::BlockNumber;
use crate::types::Dimensions;
use crate::types::Manifest;
use crate::types::Package;
use crate::types::PackageId;
use crate::types::PackageStatus;
use crate::types::THREE_WORD_ADDRESS_MAX_LENGTH;
use crate::types::package_id_eq;

verus! {

/// Errors of the package lifecycle manager.
#[derive(Clone, Copy, PartialEq, Eq, Structural, Debug)]
pub enum Error {
    /// A package with that ID already exists.
    PackageExists,
    /// A package with that ID does not exist.
    PackageDoesNotExist,
    /// Attempting to assign/cancel a package whose status is not `New`.
    PackageNotNew,
    /// A package has already been assigned to a carrier.
    PackageAlreadyAssigned,
    /// Package is in a state in which it can no longer be collected.
    PackageCannotBeCollected,
    /// Attempting to modify a delivered package.
    PackageDelivered,
    /// Attempting to modify a cancelled package.
    PackageCancelled,
    /// Package is in transit.
    PackageInTransit,
    /// Package is *not* in transit.
    PackageNotInTransit,
    /// Requested package is not valid for the requested action.
    InvalidPackage,
    /// Action attempted on a package by a carrier who is not assigned.
    InvalidCarrier,
    /// Three-word-address format is invalid.
    InvalidThreeWordAddress,
    /// Manifest description is too long.
    InvalidDescription,
    /// Not enough funds available to perform the requested action.
    InsufficientFunds,
}

/// Events the package lifecycle manager emits, one per committed state
/// change.
#[derive(Clone, Copy, PartialEq, Eq, Debug)]
pub enum Event {
    /// New package created.
    PackageCreated { client: AccountId, package: PackageId },
    /// Package has been assigned to a carrier.
    PackageAssigned { client: AccountId, package: PackageId, carrier: AccountId },
    /// Package collected by its carrier.
    PackageCollected { client: AccountId, package: PackageId, carrier: AccountId },
    /// Package has been delivered.
    PackageDelivered { client: AccountId, package: PackageId },
    /// Package has been cancelled.
    PackageCancelled { client: AccountId, package: PackageId },
}

/// Configuration of the package lifecycle manager.
#[derive(Clone, Copy, PartialEq, Eq, Structural, Debug)]
pub struct Config {
    /// The base ("ernest") deposit reserved from the client at creation.
    pub ernest_deposit: u64,
    /// Upper bound on a manifest description's length.
    pub description_max_length: u32,
    /// Capacity of the concluded-entry queue.
    pub max_concluded_packages: usize,
}

/// A manifest together with the key of the package it belongs to.
pub struct ManifestRecord {
    pub client: AccountId,
    pub package: PackageId,
    pub manifest: Manifest,
}

/// A concluded package awaiting cleanup.
pub type ConcludedEntry = (AccountId, PackageId);

/// The package lifecycle manager's storage.
pub struct Pallet {
    pub config: Config,
    pub packages: Vec<Package>,
    pub manifests: Vec<ManifestRecord>,
    pub concluded_packages: Vec<ConcludedEntry>,
    pub events: Vec<Event>,
}

/// `p` is the record keyed by `(client, id)`.
pub open spec fn pkg_key_is(p: Package, client: AccountId, id: Seq<u8>) -> bool {
    p.client == client && p.id@ == id
}

/// No two package records share a key.
pub open spec fn pkgs_unique(s: Seq<Package>) -> bool {
    forall|i: int, j: int|
        #![trigger s[i], s[j]]
        0 <= i < j < s.len() ==> !(s[i].client == s[j].client && s[i].id@ == s[j].id@)
}

/// A package keyed by `(client, id)` exists in `s`.
pub open spec fn has_pkg(s: Seq<Package>, client: AccountId, id: Seq<u8>) -> bool {
    exists|i: int| 0 <= i < s.len() && #[trigger] pkg_key_is(s[i], client, id)
}

/// A package keyed by `(client, id)` exists in `s` with status `st`.
pub open spec fn pkg_with_status(
    s: Seq<Package>,
    client: AccountId,
    id: Seq<u8>,
    st: PackageStatus,
) -> bool {
    exists|i: int|
        0 <= i < s.len() && #[trigger] pkg_key_is(s[i], client, id) && s[i].status == st
}

/// `m` is the manifest record keyed by `(client, id)`.
pub open spec fn man_key_is(m: ManifestRecord, client: AccountId, id: Seq<u8>) -> bool {
    m.client == client && m.package@ == id
}

/// No two manifest records share a key.
pub open spec fn mans_unique(s: Seq<ManifestRecord>) -> bool {
    forall|i: int, j: int|
        #![trigger s[i], s[j]]
        0 <= i < j < s.len() ==> !(s[i].client == s[j].client && s[i].package@ == s[j].package@)
}

/// A manifest keyed by `(client, id)` exists in `s`.
pub open spec fn has_man(s: Seq<ManifestRecord>, client: AccountId, id: Seq<u8>) -> bool {
    exists|i: int| 0 <= i < s.len() && #[trigger] man_key_is(s[i], client, id)
}

/// The key `(client, id)` occurs among the concluded entries.
pub open spec fn in_entries(s: Seq<ConcludedEntry>, client: AccountId, id: Seq<u8>) -> bool {
    exists|j: int| 0 <= j < s.len() && (#[trigger] s[j]).0 == client && s[j].1@ == id
}

/// The packages of `s` whose keys are not listed in `entries`, in order.
pub open spec fn remaining_packages(s: Seq<Package>, entries: Seq<ConcludedEntry>) -> Seq<Package>
    decreases s.len(),
{
    if s.len() == 0 {
        Seq::empty()
    } else if in_entries(entries, s.last().client, s.last().id@) {
        remaining_packages(s.drop_last(), entries)
    } else {
        remaining_packages(s.drop_last(), entries).push(s.last())
    }
}

/// The manifest records of `s` whose keys are not listed in `entries`.
pub open spec fn remaining_manifests(
    s: Seq<ManifestRecord>,
    entries: Seq<ConcludedEntry>,
) -> Seq<ManifestRecord>
    decreases s.len(),
{
    if s.len() == 0 {
        Seq::empty()
    } else if in_entries(entries, s.last().client, s.last().package@) {
        remaining_manifests(s.drop_last(), entries)
    } else {
        remaining_manifests(s.drop_last(), entries).push(s.last())
    }
}

/// Keys are unique, so a key match pins the index.
pub proof fn lemma_pkg_index_unique(s: Seq<Package>, client: AccountId, id: Seq<u8>, i: int, j: int)
    requires
        pkgs_unique(s),
        0 <= i < s.len(),
        0 <= j < s.len(),
        pkg_key_is(s[i], client, id),
        pkg_key_is(s[j], client, id),
    ensures
        i == j,
{
}

impl Pallet {
    /// Records are uniquely keyed and every stored field respects its bound.
    pub open spec fn wf(self) -> bool {
        &&& pkgs_unique(self.packages@)
        &&& mans_unique(self.manifests@)
        &&& forall|i: int|
            0 <= i < self.packages@.len() ==> (#[trigger] self.packages@[i]).pickup@.len()
                <= THREE_WORD_ADDRESS_MAX_LENGTH && self.packages@[i].destination@.len()
                <= THREE_WORD_ADDRESS_MAX_LENGTH
        &&& forall|i: int|
            0 <= i < self.manifests@.len() ==> (#[trigger] self.manifests@[
            i]).manifest.description@.len() <= self.config.description_max_length
        &&& forall|i: int|
            0 <= i < self.manifests@.len() ==> has_pkg(
                self.packages@,
                (#[trigger] self.manifests@[i]).client,
                self.manifests@[i].package@,
            )
        &&& self.concluded_packages@.len() <= self.config.max_concluded_packages
    }

    /// An empty manager with the given configuration.
    pub fn new(config: Config) -> (r: Pallet)
        ensures
            r.wf(),
            r.config == config,
            r.packages@.len() == 0,
            r.manifests@.len() == 0,
            r.concluded_packages@.len() == 0,
            r.events@.len() == 0,
    {
        Pallet {
            config,
            packages: Vec::new(),
            manifests: Vec::new(),
            concluded_packages: Vec::new(),
            events: Vec::new(),
        }
    }

    /// Index of the package keyed by `(client, package_id)`, if it exists.
    fn find_package_index(&self, client: AccountId, package_id: &PackageId) -> (r: Option<usize>)
        ensures
            match r {
                Some(i) => i < self.packages@.len() && pkg_key_is(
                    self.packages@[i as int],
                    client,
                    package_id@,
                ),
                None => !has_pkg(self.packages@, client, package_id@),
            },
    {
        let mut i: usize = 0;
        while i < self.packages.len()
            invariant
                i <= self.packages@.len(),
                forall|j: int|
                    0 <= j < i ==> !pkg_key_is(#[trigger] self.packages@[j], client, package_id@),
            decreases self.packages@.len() - i,
        {
            if self.packages[i].client == client && package_id_eq(&self.packages[i].id, package_id)
            {
                return Some(i);
            }
            i += 1;
        }
        None
    }

    /// Index of the manifest keyed by `(client, package_id)`, if it exists.
    fn find_manifest_index(&self, client: AccountId, package_id: &PackageId) -> (r: Option<usize>)
        ensures
            match r {
                Some(i) => i < self.manifests@.len() && man_key_is(
                    self.manifests@[i as int],
                    client,
                    package_id@,
                ),
                None => !has_man(self.manifests@, client, package_id@),
            },
    {
        let mut i: usize = 0;
        while i < self.manifests.len()
            invariant
                i <= self.manifests@.len(),
                forall|j: int|
                    0 <= j < i ==> !man_key_is(#[trigger] self.manifests@[j], client, package_id@),
            decreases self.manifests@.len() - i,
        {
            if self.manifests[i].client == client && package_id_eq(
                &self.manifests[i].package,
                package_id,
            ) {
                return Some(i);
            }
            i += 1;
        }
        None
    }

    /// Status of the package keyed by `(client, package_id)`.
    pub fn package_status(&self, client: AccountId, package_id: &PackageId) -> (r: Option<
        PackageStatus,
    >)
        requires
            self.wf(),
        ensures
            r is Some <==> has_pkg(self.packages@, client, package_id@),
            forall|i: int|
                0 <= i < self.packages@.len() && pkg_key_is(
                    #[trigger] self.packages@[i],
                    client,
                    package_id@,
                ) ==> r == Some(self.packages@[i].status),
    {
        match self.find_package_index(client, package_id) {
            Some(i) => Some(self.packages[i].status),
            None => None,
        }
    }

    /// Carrier of the package keyed by `(client, package_id)`.
    pub fn package_carrier(&self, client: AccountId, package_id: &PackageId) -> (r: Option<
        Option<AccountId>,
    >)
        requires
            self.wf(),
        ensures
            r is Some <==> has_pkg(self.packages@, client, package_id@),
            forall|i: int|
                0 <= i < self.packages@.len() && pkg_key_is(
                    #[trigger] self.packages@[i],
                    client,
                    package_id@,
                ) ==> r == Some(self.packages@[i].carrier),
    {
        match self.find_package_index(client, package_id) {
            Some(i) => Some(self.packages[i].carrier),
            None => None,
        }
    }

    /// Collection time of the package keyed by `(client, package_id)`.
    pub fn package_collected_on(&self, client: AccountId, package_id: &PackageId) -> (r: Option<
        Option<BlockNumber>,
    >)
        requires
            self.wf(),
        ensures
            r is Some <==> has_pkg(self.packages@, client, package_id@),
            forall|i: int|
                0 <= i < self.packages@.len() && pkg_key_is(
                    #[trigger] self.packages@[i],
                    client,
                    package_id@,
                ) ==> r == Some(self.packages@[i].collected_on),
    {
        match self.find_package_index(client, package_id) {
            Some(i) => Some(self.packages[i].collected_on),
            None => None,
        }
    }

    /// Delivery time of the package keyed by `(client, package_id)`.
    pub fn package_delivered_on(&self, client: AccountId, package_id: &PackageId) -> (r: Option<
        Option<BlockNumber>,
    >)
        requires
            self.wf(),
        ensures
            r is Some <==> has_pkg(self.packages@, client, package_id@),
            forall|i: int|
                0 <= i < self.packages@.len() && pkg_key_is(
                    #[trigger] self.packages@[i],
                    client,
                    package_id@,
                ) ==> r == Some(self.packages@[i].delivered_on),
    {
        match self.find_package_index(client, package_id) {
            Some(i) => Some(self.packages[i].delivered_on),
            None => None,
        }
    }

    /// Whether a manifest exists for `(client, package_id)`.
    pub fn has_manifest(&self, client: AccountId, package_id: &PackageId) -> (r: bool)
        ensures
            r == has_man(self.manifests@, client, package_id@),
    {
        match self.find_manifest_index(client, package_id) {
            Some(_) => true,
            None => false,
        }
    }

    /// The package exists and is still `New`.
    pub fn package_is_new(&self, client: AccountId, package_id: &PackageId) -> (r: bool)
        requires
            self.wf(),
        ensures
            r == pkg_with_status(self.packages@, client, package_id@, PackageStatus::New),
    {
        match self.find_package_index(client, package_id) {
            Some(i) => self.packages[i].status == PackageStatus::New,
            None => false,
        }
    }

    /// The package exists and is in transit.
    pub fn package_is_in_transit(&self, client: AccountId, package_id: &PackageId) -> (r: bool)
        requires
            self.wf(),
        ensures
            r == pkg_with_status(self.packages@, client, package_id@, PackageStatus::InTransit),
    {
        match self.find_package_index(client, package_id) {
            Some(i) => self.packages[i].status == PackageStatus::InTransit,
            None => false,
        }
    }

    /// Creates a package and its manifest for `who`, reserving the base
    /// deposit from `who`'s ledger balance.  Validation and the reservation
    /// happen before any record is written, so a failure changes nothing.
    pub fn package_create(
        &mut self,
        who: AccountId,
        package_id: PackageId,
        pickup: Vec<u8>,
        destination: Vec<u8>,
        description: Vec<u8>,
        length: u32,
        width: u32,
        height: u32,
        weight: u32,
        contains_hazardous_materials: bool,
        requires_climate_controlled: bool,
        now: BlockNumber,
        ledger: &mut Ledger,
    ) -> (r: Result<(), Error>)
        requires
            old(self).wf(),
            old(ledger).wf(),
        ensures
            final(self).wf(),
            final(ledger).wf(),
            final(self).config == old(self).config,
            final(self).concluded_packages@ == old(self).concluded_packages@,
            final(ledger).minimum_balance == old(ledger).minimum_balance,
            forall|b: AccountId|
                #![trigger final(ledger).free_of(b)]
                #![trigger final(ledger).reserved_of(b)]
                b != who ==> final(ledger).free_of(b) == old(ledger).free_of(b)
                    && final(ledger).reserved_of(b) == old(ledger).reserved_of(b),
            final(ledger).reserved_of(who) == old(ledger).reserved_of(who) + (
            if r is Ok {
                old(self).config.ernest_deposit
            } else {
                0
            }),
            final(ledger).free_of(who) == old(ledger).free_of(who) - (
            if r is Ok {
                old(self).config.ernest_deposit
            } else {
                0
            }),
            match r {
                Ok(()) => pickup@.len() <= THREE_WORD_ADDRESS_MAX_LENGTH && destination@.len()
                    <= THREE_WORD_ADDRESS_MAX_LENGTH && description@.len() <= old(self).config.description_max_length && !has_pkg(old(self).packages@, who, package_id@)
                    && old(self).config.ernest_deposit <= old(ledger).free_of(who) && final(self).packages@ == old(self).packages@.push(
                    (Package {
                        id: package_id,
                        client: who,
                        carrier: None,
                        pickup,
                        destination,
                        requested_on: now,
                        collected_on: None,
                        delivered_on: None,
                        status: PackageStatus::New,
                    }),
                ) && final(self).manifests@ == old(self).manifests@.push(
                    (ManifestRecord {
                        client: who,
                        package: package_id,
                        manifest: Manifest {
                            description,
                            dimensions: Dimensions { length, width, height },
                            weight,
                            hazardous_materials: contains_hazardous_materials,
                            climate_controlled: requires_climate_controlled,
                        },
                    }),
                ) && final(self).events@ == old(self).events@.push(
                    Event::PackageCreated { client: who, package: package_id },
                ),
                Err(Error::InvalidThreeWordAddress) => (pickup@.len()
                    > THREE_WORD_ADDRESS_MAX_LENGTH || destination@.len()
                    > THREE_WORD_ADDRESS_MAX_LENGTH) && *final(self) == *old(self) && *final(ledger) == *old(ledger),
                Err(Error::InvalidDescription) => pickup@.len() <= THREE_WORD_ADDRESS_MAX_LENGTH
                    && destination@.len() <= THREE_WORD_ADDRESS_MAX_LENGTH && description@.len()
                    > old(self).config.description_max_length && *final(self) == *old(self)
                    && *final(ledger) == *old(ledger),
                Err(Error::PackageExists) => pickup@.len() <= THREE_WORD_ADDRESS_MAX_LENGTH
                    && destination@.len() <= THREE_WORD_ADDRESS_MAX_LENGTH && description@.len()
                    <= old(self).config.description_max_length && has_pkg(
                    old(self).packages@,
                    who,
                    package_id@,
                ) && *final(self) == *old(self) && *final(ledger) == *old(ledger),
                Err(Error::InsufficientFunds) => pickup@.len() <= THREE_WORD_ADDRESS_MAX_LENGTH
                    && destination@.len() <= THREE_WORD_ADDRESS_MAX_LENGTH && description@.len()
                    <= old(self).config.description_max_length && !has_pkg(
                    old(self).packages@,
                    who,
                    package_id@,
                ) && old(self).config.ernest_deposit > old(ledger).free_of(who) && *final(self)
                    == *old(self) && *final(ledger) == *old(ledger),
                Err(_) => false,
            },
    {
        if pickup.len() > THREE_WORD_ADDRESS_MAX_LENGTH || destination.len()
            > THREE_WORD_ADDRESS_MAX_LENGTH {
            return Err(Error::InvalidThreeWordAddress);
        }
        if description.len() > self.config.description_max_length as usize {
            return Err(Error::InvalidDescription);
        }
        if let Some(_) = self.find_package_index(who, &package_id) {
            return Err(Error::PackageExists);
        }
        // Reserve the base deposit; nothing was written yet, so a failed
        // reservation aborts the whole operation.
        if !ledger.reserve(who, self.config.ernest_deposit) {
            return Err(Error::InsufficientFunds);
        }
        let ghost pkgs0 = self.packages@;
        let ghost mans0 = self.manifests@;
        self.packages.push(
            Package::new(package_id, who, pickup, destination, now),
        );
        self.manifests.push(
            ManifestRecord {
                client: who,
                package: package_id,
                manifest: Manifest {
                    description,
                    dimensions: Dimensions { length, width, height },
                    weight,
                    hazardous_materials: contains_hazardous_materials,
                    climate_controlled: requires_climate_controlled,
                },
            },
        );
        self.events.push(Event::PackageCreated { client: who, package: package_id });
        proof {
            assert forall|i: int, j: int|
                #![trigger self.packages@[i], self.packages@[j]]
                0 <= i < j < self.packages@.len() implies !(self.packages@[i].client
                == self.packages@[j].client && self.packages@[i].id@ == self.packages@[j].id@) by {
                if j == self.packages@.len() - 1 {
                    assert(pkg_key_is(pkgs0[i], self.packages@[i].client, self.packages@[i].id@));
                }
            }
            assert forall|i: int, j: int|
                #![trigger self.manifests@[i], self.manifests@[j]]
                0 <= i < j < self.manifests@.len() implies !(self.manifests@[i].client
                == self.manifests@[j].client && self.manifests@[i].package@ == self.manifests@[
                j].package@) by {
                if j == self.manifests@.len() - 1 && self.manifests@[i].client == who
                    && self.manifests@[i].package@ == package_id@ {
                    let w = choose|w: int|
                        0 <= w < pkgs0.len() && pkg_key_is(#[trigger] pkgs0[w], who, package_id@);
                    assert(false);
                }
            }
            assert forall|k: int|
                0 <= k < self.manifests@.len() implies has_pkg(
                self.packages@,
                (#[trigger] self.manifests@[k]).client,
                self.manifests@[k].package@,
            ) by {
                if k < mans0.len() {
                    let w = choose|w: int|
                        0 <= w < pkgs0.len() && pkg_key_is(#[trigger] pkgs0[w], mans0[k].client,
                        mans0[k].package@);
                    assert(pkg_key_is(self.packages@[w], mans0[k].client, mans0[k].package@));
                } else {
                    assert(pkg_key_is(self.packages@[self.packages@.len() - 1], who, package_id@));
                }
            }
        }
        Ok(())
    }

    /// Sets the package's carrier and flips it to `Assigned`; only a `New`
    /// package can be assigned.
    pub fn assign_package(&mut self, client: AccountId, package_id: &PackageId, carrier: AccountId)
        -> (r: Result<(), Error>)
        requires
            old(self).wf(),
        ensures
            final(self).wf(),
            final(self).config == old(self).config,
            final(self).manifests@ == old(self).manifests@,
            final(self).concluded_packages@ == old(self).concluded_packages@,
            match r {
                Ok(()) => exists|i: int|
                    0 <= i < old(self).packages@.len() && #[trigger] pkg_key_is(
                        old(self).packages@[i],
                        client,
                        package_id@,
                    ) && old(self).packages@[i].status == PackageStatus::New && final(self).packages@ == old(self).packages@.update(
                        i,
                        (Package {
                            carrier: Some(carrier),
                            status: PackageStatus::Assigned,
                            ..old(self).packages@[i]
                        }),
                    ) && final(self).events@ == old(self).events@.push(
                        Event::PackageAssigned { client, package: *package_id, carrier },
                    ),
                Err(Error::PackageDoesNotExist) => !has_pkg(old(self).packages@, client, package_id@)
                    && *final(self) == *old(self),
                Err(Error::PackageNotNew) => (exists|i: int|
                    0 <= i < old(self).packages@.len() && #[trigger] pkg_key_is(
                        old(self).packages@[i],
                        client,
                        package_id@,
                    ) && old(self).packages@[i].status != PackageStatus::New) && *final(self)
                    == *old(self),
                Err(_) => false,
            },
    {
        match self.find_package_index(client, package_id) {
            Some(i) => {
                if self.packages[i].status != PackageStatus::New {
                    return Err(Error::PackageNotNew);
                }
                let ghost pkgs0 = self.packages@;
                let slot = &mut self.packages[i];
                slot.carrier = Some(carrier);
                slot.status = PackageStatus::Assigned;
                proof {
                    lemma_wf_after_update(pkgs0, i as int, self.packages@[i as int]);
                    lemma_covered_after_update(
                        pkgs0,
                        i as int,
                        self.packages@[i as int],
                        self.manifests@,
                    );
                }
                self.events.push(Event::PackageAssigned { client, package: *package_id, carrier });
                Ok(())
            },
            None => Err(Error::PackageDoesNotExist),
        }
    }

    /// Flips a still-`New` package to `Cancelled` and queues it for
    /// sweeping; the deposit release is the settlement layer's business.
    /// If the concluded-entry queue is already at capacity the record is
    /// deliberately not queued: it stays terminal but unswept, a loss the
    /// bounded-sweeper design accepts.
    pub fn cancel_package(&mut self, client: AccountId, package_id: &PackageId) -> (r: Result<
        (),
        Error,
    >)
        requires
            old(self).wf(),
        ensures
            final(self).wf(),
            final(self).config == old(self).config,
            final(self).manifests@ == old(self).manifests@,
            match r {
                Ok(()) => exists|i: int|
                    0 <= i < old(self).packages@.len() && #[trigger] pkg_key_is(
                        old(self).packages@[i],
                        client,
                        package_id@,
                    ) && old(self).packages@[i].status == PackageStatus::New && final(self).packages@ == old(self).packages@.update(
                        i,
                        (Package { status: PackageStatus::Cancelled, ..old(self).packages@[i] }),
                    ) && final(self).events@ == old(self).events@.push(
                        Event::PackageCancelled { client, package: *package_id },
                    ) && final(self).concluded_packages@ == (
                    if old(self).concluded_packages@.len()
                        < old(self).config.max_concluded_packages {
                        old(self).concluded_packages@.push((client, *package_id))
                    } else {
                        old(self).concluded_packages@
                    }),
                Err(Error::PackageDoesNotExist) => !has_pkg(old(self).packages@, client, package_id@)
                    && *final(self) == *old(self),
                Err(Error::PackageNotNew) => (exists|i: int|
                    0 <= i < old(self).packages@.len() && #[trigger] pkg_key_is(
                        old(self).packages@[i],
                        client,
                        package_id@,
                    ) && old(self).packages@[i].status != PackageStatus::New) && *final(self)
                    == *old(self),
                Err(_) => false,
            },
    {
        match self.find_package_index(client, package_id) {
            Some(i) => {
                if self.packages[i].status != PackageStatus::New {
                    return Err(Error::PackageNotNew);
                }
                let ghost pkgs0 = self.packages@;
                let slot = &mut self.packages[i];
                slot.status = PackageStatus::Cancelled;
                proof {
                    lemma_wf_after_update(pkgs0, i as int, self.packages@[i as int]);
                    lemma_covered_after_update(
                        pkgs0,
                        i as int,
                        self.packages@[i as int],
                        self.manifests@,
                    );
                }
                self.events.push(Event::PackageCancelled { client, package: *package_id });
                if self.concluded_packages.len() < self.config.max_concluded_packages {
                    self.concluded_packages.push((client, *package_id));
                }
                Ok(())
            },
            None => Err(Error::PackageDoesNotExist),
        }
    }

    /// Flips an in-transit package to `Delivered`, stamps the delivery
    /// height and queues it for sweeping.  If the concluded-entry queue is
    /// already at capacity the record is deliberately not queued: it stays
    /// terminal but unswept, a loss the bounded-sweeper design accepts.
    pub fn deliver_package(&mut self, client: AccountId, package_id: &PackageId, now: BlockNumber)
        -> (r: Result<(), Error>)
        requires
            old(self).wf(),
        ensures
            final(self).wf(),
            final(self).config == old(self).config,
            final(self).manifests@ == old(self).manifests@,
            match r {
                Ok(()) => exists|i: int|
                    0 <= i < old(self).packages@.len() && #[trigger] pkg_key_is(
                        old(self).packages@[i],
                        client,
                        package_id@,
                    ) && old(self).packages@[i].status == PackageStatus::InTransit && final(self).packages@ == old(self).packages@.update(
                        i,
                        (Package {
                            delivered_on: Some(now),
                            status: PackageStatus::Delivered,
                            ..old(self).packages@[i]
                        }),
                    ) && final(self).events@ == old(self).events@.push(
                        Event::PackageDelivered { client, package: *package_id },
                    ) && final(self).concluded_packages@ == (
                    if old(self).concluded_packages@.len()
                        < old(self).config.max_concluded_packages {
                        old(self).concluded_packages@.push((client, *package_id))
                    } else {
                        old(self).concluded_packages@
                    }),
                Err(Error::PackageDoesNotExist) => !has_pkg(old(self).packages@, client, package_id@)
                    && *final(self) == *old(self),
                Err(Error::PackageNotInTransit) => (exists|i: int|
                    0 <= i < old(self).packages@.len() && #[trigger] pkg_key_is(
                        old(self).packages@[i],
                        client,
                        package_id@,
                    ) && old(self).packages@[i].status != PackageStatus::InTransit) && *final(self)
                    == *old(self),
                Err(_) => false,
            },
    {
        match self.find_package_index(client, package_id) {
            Some(i) => {
                if self.packages[i].status != PackageStatus::InTransit {
                    return Err(Error::PackageNotInTransit);
                }
                let ghost pkgs0 = self.packages@;
                let slot = &mut self.packages[i];
                slot.delivered_on = Some(now);
                slot.status = PackageStatus::Delivered;
                proof {
                    lemma_wf_after_update(pkgs0, i as int, self.packages@[i as int]);
                    lemma_covered_after_update(
                        pkgs0,
                        i as int,
                        self.packages@[i as int],
                        self.manifests@,
                    );
                }
                self.events.push(Event::PackageDelivered { client, package: *package_id });
                if self.concluded_packages.len() < self.config.max_concluded_packages {
                    self.concluded_packages.push((client, *package_id));
                }
                Ok(())
            },
            None => Err(Error::PackageDoesNotExist),
        }
    }

    /// The assigned carrier `who` picks the package up: requires the package
    /// to exist, `who` to be its carrier and the status to be `Assigned`;
    /// stamps the collection height and flips to `InTransit`.
    pub fn package_collect(
        &mut self,
        who: AccountId,
        package_id: PackageId,
        client: AccountId,
        now: BlockNumber,
    ) -> (r: Result<(), Error>)
        requires
            old(self).wf(),
        ensures
            final(self).wf(),
            final(self).config == old(self).config,
            final(self).manifests@ == old(self).manifests@,
            final(self).concluded_packages@ == old(self).concluded_packages@,
            match r {
                Ok(()) => exists|i: int|
                    0 <= i < old(self).packages@.len() && #[trigger] pkg_key_is(
                        old(self).packages@[i],
                        client,
                        package_id@,
                    ) && old(self).packages@[i].carrier == Some(who) && old(self).packages@[
                    i].status == PackageStatus::Assigned && final(self).packages@ == old(self).packages@.update(
                        i,
                        (Package {
                            collected_on: Some(now),
                            status: PackageStatus::InTransit,
                            ..old(self).packages@[i]
                        }),
                    ) && final(self).events@ == old(self).events@.push(
                        Event::PackageCollected { client, package: package_id, carrier: who },
                    ),
                Err(Error::PackageDoesNotExist) => !has_pkg(old(self).packages@, client, package_id@)
                    && *final(self) == *old(self),
                Err(Error::InvalidCarrier) => (exists|i: int|
                    0 <= i < old(self).packages@.len() && #[trigger] pkg_key_is(
                        old(self).packages@[i],
                        client,
                        package_id@,
                    ) && old(self).packages@[i].carrier != Some(who)) && *final(self) == *old(self),
                Err(Error::PackageCannotBeCollected) => (exists|i: int|
                    0 <= i < old(self).packages@.len() && #[trigger] pkg_key_is(
                        old(self).packages@[i],
                        client,
                        package_id@,
                    ) && old(self).packages@[i].carrier == Some(who) && old(self).packages@[
                    i].status != PackageStatus::Assigned) && *final(self) == *old(self),
                Err(_) => false,
            },
    {
        match self.find_package_index(client, &package_id) {
            Some(i) => {
                let is_carrier = match self.packages[i].carrier {
                    Some(k) => k == who,
                    None => false,
                };
                if !is_carrier {
                    return Err(Error::InvalidCarrier);
                }
                if self.packages[i].status != PackageStatus::Assigned {
                    return Err(Error::PackageCannotBeCollected);
                }
                let ghost pkgs0 = self.packages@;
                let slot = &mut self.packages[i];
                slot.collected_on = Some(now);
                slot.status = PackageStatus::InTransit;
                proof {
                    lemma_wf_after_update(pkgs0, i as int, self.packages@[i as int]);
                    lemma_covered_after_update(
                        pkgs0,
                        i as int,
                        self.packages@[i as int],
                        self.manifests@,
                    );
                }
                self.events.push(
                    Event::PackageCollected { client, package: package_id, carrier: who },
                );
                Ok(())
            },
            None => Err(Error::PackageDoesNotExist),
        }
    }

    /// Drains the concluded-entry queue and deletes every package and
    /// manifest whose key is listed there, returning the drained entries so
    /// the caller can clear the matching proposals too.
    pub fn remove_concluded_packages_and_manifests(&mut self) -> (drained: Vec<ConcludedEntry>)
        requires
            old(self).wf(),
        ensures
            final(self).wf(),
            final(self).config == old(self).config,
            final(self).events@ == old(self).events@,
            drained@ == old(self).concluded_packages@,
            final(self).concluded_packages@.len() == 0,
            final(self).packages@ == remaining_packages(old(self).packages@, drained@),
            final(self).manifests@ == remaining_manifests(old(self).manifests@, drained@),
    {
        let mut drained: Vec<ConcludedEntry> = Vec::new();
        core::mem::swap(&mut drained, &mut self.concluded_packages);

        let ghost pkgs0 = self.packages@;
        let ghost mans_all = self.manifests@;
        let ghost events0 = self.events@;
        let ghost cfg0 = self.config;
        let mut old_packages: Vec<Package> = Vec::new();
        core::mem::swap(&mut old_packages, &mut self.packages);
        let mut k: usize = 0;
        let total = old_packages.len();
        while k < total
            invariant
                k <= total,
                total == pkgs0.len(),
                old_packages@ == pkgs0.subrange(k as int, total as int),
                self.packages@ == remaining_packages(pkgs0.take(k as int), drained@),
                self.manifests@ == mans_all,
                self.events@ == events0,
                self.config == cfg0,
                self.concluded_packages@.len() == 0,
            decreases total - k,
        {
            let p = old_packages.remove(0);
            let keep = !entry_matches(&drained, p.client, &p.id);
            proof {
                assert(pkgs0.take(k as int + 1).drop_last() =~= pkgs0.take(k as int));
                assert(pkgs0.take(k as int + 1).last() == pkgs0[k as int]);
            }
            if keep {
                self.packages.push(p);
            }
            k += 1;
            proof {
                assert(old_packages@ =~= pkgs0.subrange(k as int, total as int));
            }
        }
        proof {
            assert(pkgs0.take(total as int) =~= pkgs0);
        }

        let ghost mans0 = self.manifests@;
        let ghost pkgs_done = self.packages@;
        let mut old_manifests: Vec<ManifestRecord> = Vec::new();
        core::mem::swap(&mut old_manifests, &mut self.manifests);
        let mut k2: usize = 0;
        let total2 = old_manifests.len();
        while k2 < total2
            invariant
                k2 <= total2,
                total2 == mans0.len(),
                old_manifests@ == mans0.subrange(k2 as int, total2 as int),
                self.manifests@ == remaining_manifests(mans0.take(k2 as int), drained@),
                self.packages@ == pkgs_done,
                self.events@ == events0,
                self.config == cfg0,
                self.concluded_packages@.len() == 0,
            decreases total2 - k2,
        {
            let m = old_manifests.remove(0);
            let keep = !entry_matches(&drained, m.client, &m.package);
            proof {
                assert(mans0.take(k2 as int + 1).drop_last() =~= mans0.take(k2 as int));
                assert(mans0.take(k2 as int + 1).last() == mans0[k2 as int]);
            }
            if keep {
                self.manifests.push(m);
            }
            k2 += 1;
            proof {
                assert(old_manifests@ =~= mans0.subrange(k2 as int, total2 as int));
            }
        }
        proof {
            assert(mans0.take(total2 as int) =~= mans0);
            lemma_remaining_packages_wf(pkgs0, drained@);
            lemma_remaining_manifests_wf(mans0, drained@);
            lemma_remaining_manifests_not_entries(mans0, drained@);
            assert forall|k: int|
                0 <= k < self.manifests@.len() implies (#[trigger] self.manifests@[
            k]).manifest.description@.len() <= self.config.description_max_length by {
                let w = choose|w: int|
                    0 <= w < mans0.len() && mans0[w] == #[trigger] self.manifests@[k];
            }
            assert forall|k: int|
                0 <= k < self.manifests@.len() implies has_pkg(
                self.packages@,
                (#[trigger] self.manifests@[k]).client,
                self.manifests@[k].package@,
            ) by {
                let w = choose|w: int|
                    0 <= w < mans0.len() && mans0[w] == #[trigger] self.manifests@[k];
                let c = self.manifests@[k].client;
                let id = self.manifests@[k].package@;
                assert(man_key_is(mans0[w], c, id));
                assert(has_pkg(pkgs0, c, id));
                lemma_remaining_has_pkg(pkgs0, drained@, c, id);
            }
        }
        drained
    }
}

/// Whether `(client, package_id)` occurs among `entries`.
fn entry_matches(entries: &Vec<ConcludedEntry>, client: AccountId, package_id: &PackageId) -> (r:
    bool)
    ensures
        r == in_entries(entries@, client, package_id@),
{
    let mut j: usize = 0;
    while j < entries.len()
        invariant
            j <= entries@.len(),
            forall|l: int|
                0 <= l < j ==> !((#[trigger] entries@[l]).0 == client && entries@[l].1@
                    == package_id@),
        decreases entries@.len() - j,
    {
        if entries[j].0 == client && package_id_eq(&entries[j].1, package_id) {
            return true;
        }
        j += 1;
    }
    false
}

/// Replacing a package without changing its key or address fields keeps the
/// store well-formed in the key and bound respects.
proof fn lemma_wf_after_update(s: Seq<Package>, i: int, p: Package)
    requires
        pkgs_unique(s),
        0 <= i < s.len(),
        p.client == s[i].client,
        p.id@ == s[i].id@,
    ensures
        pkgs_unique(s.update(i, p)),
{
    let t = s.update(i, p);
    assert forall|k: int, l: int|
        #![trigger t[k], t[l]]
        0 <= k < l < t.len() implies !(t[k].client == t[l].client && t[k].id@ == t[l].id@) by {
        assert(s[k] == if k == i {
            s[i]
        } else {
            t[k]
        });
        assert(s[l] == if l == i {
            s[i]
        } else {
            t[l]
        });
    }
}

/// A surviving package stems from the store before the sweep.
pub proof fn lemma_remaining_packages_membership(s: Seq<Package>, entries: Seq<ConcludedEntry>)
    ensures
        forall|j: int|
            0 <= j < remaining_packages(s, entries).len() ==> exists|i: int|
                0 <= i < s.len() && s[i] == #[trigger] remaining_packages(s, entries)[j],
    decreases s.len(),
{
    if s.len() > 0 {
        lemma_remaining_packages_membership(s.drop_last(), entries);
        assert forall|j: int|
            0 <= j < remaining_packages(s, entries).len() implies exists|i: int|
                0 <= i < s.len() && s[i] == #[trigger] remaining_packages(s, entries)[j] by {
            let r = remaining_packages(s, entries);
            let rd = remaining_packages(s.drop_last(), entries);
            if j < rd.len() {
                let i = choose|i: int| 0 <= i < s.drop_last().len() && s.drop_last()[i] == rd[j];
                assert(s[i] == rd[j]);
            } else {
                assert(r[j] == s.last());
                assert(s[s.len() - 1] == s.last());
            }
        }
    }
}

/// A survivor of the sweep carries a key outside the drained entries.
pub proof fn lemma_remaining_packages_not_entries(s: Seq<Package>, entries: Seq<ConcludedEntry>)
    ensures
        forall|j: int|
            0 <= j < remaining_packages(s, entries).len() ==> !in_entries(
                entries,
                (#[trigger] remaining_packages(s, entries)[j]).client,
                remaining_packages(s, entries)[j].id@,
            ),
    decreases s.len(),
{
    if s.len() > 0 {
        lemma_remaining_packages_not_entries(s.drop_last(), entries);
        let r = remaining_packages(s, entries);
        let rd = remaining_packages(s.drop_last(), entries);
        assert forall|j: int|
            0 <= j < r.len() implies !in_entries(
            entries,
            (#[trigger] r[j]).client,
            r[j].id@,
        ) by {
            if j < rd.len() {
                assert(r[j] == rd[j]);
            }
        }
    }
}

/// Sweeping keeps package keys unique and bounds intact.
proof fn lemma_remaining_packages_wf(s: Seq<Package>, entries: Seq<ConcludedEntry>)
    requires
        pkgs_unique(s),
        forall|i: int|
            0 <= i < s.len() ==> (#[trigger] s[i]).pickup@.len() <= THREE_WORD_ADDRESS_MAX_LENGTH
                && s[i].destination@.len() <= THREE_WORD_ADDRESS_MAX_LENGTH,
    ensures
        pkgs_unique(remaining_packages(s, entries)),
        forall|i: int|
            0 <= i < remaining_packages(s, entries).len() ==> (#[trigger] remaining_packages(
                s,
                entries,
            )[i]).pickup@.len() <= THREE_WORD_ADDRESS_MAX_LENGTH && remaining_packages(s, entries)[
                i].destination@.len() <= THREE_WORD_ADDRESS_MAX_LENGTH,
        forall|c: AccountId, id: Seq<u8>|
            #[trigger] has_pkg(remaining_packages(s, entries), c, id) ==> has_pkg(s, c, id),
    decreases s.len(),
{
    if s.len() > 0 {
        assert(forall|i: int, j: int|
            #![trigger s.drop_last()[i], s.drop_last()[j]]
            0 <= i < j < s.len() - 1 ==> !(s.drop_last()[i].client == s.drop_last()[j].client
                && s.drop_last()[i].id@ == s.drop_last()[j].id@));
        lemma_remaining_packages_wf(s.drop_last(), entries);
        let r = remaining_packages(s, entries);
        let rd = remaining_packages(s.drop_last(), entries);
        lemma_remaining_packages_membership(s.drop_last(), entries);
        if !in_entries(entries, s.last().client, s.last().id@) {
            assert forall|i: int, j: int|
                #![trigger r[i], r[j]]
                0 <= i < j < r.len() implies !(r[i].client == r[j].client && r[i].id@ == r[j].id@)
                by {
                if j == r.len() - 1 {
                    let i0 = choose|i0: int|
                        0 <= i0 < s.drop_last().len() && s.drop_last()[i0] == rd[i];
                    assert(s[i0] == r[i]);
                    assert(s[s.len() - 1] == s.last());
                }
            }
            assert forall|c: AccountId, id: Seq<u8>| #[trigger]
                has_pkg(r, c, id) implies has_pkg(s, c, id) by {
                let j = choose|j: int| 0 <= j < r.len() && pkg_key_is(r[j], c, id);
                if j < rd.len() {
                    let i0 = choose|i0: int|
                        0 <= i0 < s.drop_last().len() && s.drop_last()[i0] == rd[j];
                    assert(pkg_key_is(s[i0], c, id));
                } else {
                    assert(pkg_key_is(s[s.len() - 1], c, id));
                }
            }
        } else {
            assert forall|c: AccountId, id: Seq<u8>| #[trigger]
                has_pkg(r, c, id) implies has_pkg(s, c, id) by {
                let j = choose|j: int| 0 <= j < r.len() && pkg_key_is(r[j], c, id);
                let i0 = choose|i0: int| 0 <= i0 < s.drop_last().len() && s.drop_last()[i0] == r[j];
                assert(pkg_key_is(s[i0], c, id));
            }
        }
    }
}

/// A surviving manifest stems from the store before the sweep.
proof fn lemma_remaining_manifests_membership(s: Seq<ManifestRecord>, entries: Seq<ConcludedEntry>)
    ensures
        forall|j: int|
            0 <= j < remaining_manifests(s, entries).len() ==> exists|i: int|
                0 <= i < s.len() && s[i] == #[trigger] remaining_manifests(s, entries)[j],
    decreases s.len(),
{
    if s.len() > 0 {
        lemma_remaining_manifests_membership(s.drop_last(), entries);
        assert forall|j: int|
            0 <= j < remaining_manifests(s, entries).len() implies exists|i: int|
                0 <= i < s.len() && s[i] == #[trigger] remaining_manifests(s, entries)[j] by {
            let r = remaining_manifests(s, entries);
            let rd = remaining_manifests(s.drop_last(), entries);
            if j < rd.len() {
                let i = choose|i: int| 0 <= i < s.drop_last().len() && s.drop_last()[i] == rd[j];
                assert(s[i] == rd[j]);
            } else {
                assert(r[j] == s.last());
                assert(s[s.len() - 1] == s.last());
            }
        }
    }
}

/// Sweeping keeps manifest keys unique and bounds intact, for any bound.
proof fn lemma_remaining_manifests_wf(s: Seq<ManifestRecord>, entries: Seq<ConcludedEntry>)
    requires
        mans_unique(s),
    ensures
        mans_unique(remaining_manifests(s, entries)),
        forall|j: int|
            0 <= j < remaining_manifests(s, entries).len() ==> exists|i: int|
                0 <= i < s.len() && s[i] == #[trigger] remaining_manifests(s, entries)[j],
    decreases s.len(),
{
    lemma_remaining_manifests_membership(s, entries);
    if s.len() > 0 {
        assert(forall|i: int, j: int|
            #![trigger s.drop_last()[i], s.drop_last()[j]]
            0 <= i < j < s.len() - 1 ==> !(s.drop_last()[i].client == s.drop_last()[j].client
                && s.drop_last()[i].package@ == s.drop_last()[j].package@));
        lemma_remaining_manifests_wf(s.drop_last(), entries);
        let r = remaining_manifests(s, entries);
        let rd = remaining_manifests(s.drop_last(), entries);
        lemma_remaining_manifests_membership(s.drop_last(), entries);
        if !in_entries(entries, s.last().client, s.last().package@) {
            assert forall|i: int, j: int|
                #![trigger r[i], r[j]]
                0 <= i < j < r.len() implies !(r[i].client == r[j].client && r[i].package@ == r[
                j].package@) by {
                if j == r.len() - 1 {
                    let i0 = choose|i0: int|
                        0 <= i0 < s.drop_last().len() && s.drop_last()[i0] == rd[i];
                    assert(s[i0] == r[i]);
                    assert(s[s.len() - 1] == s.last());
                }
            }
        }
    }
}

/// Replacing a package without changing its key keeps every manifest
/// covered by a package record.
proof fn lemma_covered_after_update(
    pkgs: Seq<Package>,
    i: int,
    p: Package,
    mans: Seq<ManifestRecord>,
)
    requires
        0 <= i < pkgs.len(),
        p.client == pkgs[i].client,
        p.id@ == pkgs[i].id@,
        forall|k: int|
            0 <= k < mans.len() ==> has_pkg(
                pkgs,
                (#[trigger] mans[k]).client,
                mans[k].package@,
            ),
    ensures
        forall|k: int|
            0 <= k < mans.len() ==> has_pkg(
                pkgs.update(i, p),
                (#[trigger] mans[k]).client,
                mans[k].package@,
            ),
{
    let t = pkgs.update(i, p);
    assert forall|k: int|
        0 <= k < mans.len() implies has_pkg(
        t,
        (#[trigger] mans[k]).client,
        mans[k].package@,
    ) by {
        let w = choose|w: int|
            0 <= w < pkgs.len() && pkg_key_is(#[trigger] pkgs[w], mans[k].client, mans[
            k].package@);
        if w == i {
            assert(pkg_key_is(t[i], mans[k].client, mans[k].package@));
        } else {
            assert(pkg_key_is(t[w], mans[k].client, mans[k].package@));
        }
    }
}

/// A survivor of the sweep carries a key outside the drained entries.
proof fn lemma_remaining_manifests_not_entries(s: Seq<ManifestRecord>, entries: Seq<ConcludedEntry>)
    ensures
        forall|j: int|
            0 <= j < remaining_manifests(s, entries).len() ==> !in_entries(
                entries,
                (#[trigger] remaining_manifests(s, entries)[j]).client,
                remaining_manifests(s, entries)[j].package@,
            ),
    decreases s.len(),
{
    if s.len() > 0 {
        lemma_remaining_manifests_not_entries(s.drop_last(), entries);
        let r = remaining_manifests(s, entries);
        let rd = remaining_manifests(s.drop_last(), entries);
        assert forall|j: int|
            0 <= j < r.len() implies !in_entries(
            entries,
            (#[trigger] r[j]).client,
            r[j].package@,
        ) by {
            if j < rd.len() {
                assert(r[j] == rd[j]);
            }
        }
    }
}

/// A package neither swept nor absent survives the sweep.
proof fn lemma_remaining_has_pkg(
    s: Seq<Package>,
    entries: Seq<ConcludedEntry>,
    c: AccountId,
    id: Seq<u8>,
)
    requires
        has_pkg(s, c, id),
        !in_entries(entries, c, id),
    ensures
        has_pkg(remaining_packages(s, entries), c, id),
    decreases s.len(),
{
    let r = remaining_packages(s, entries);
    let rd = remaining_packages(s.drop_last(), entries);
    let w = choose|w: int| 0 <= w < s.len() && pkg_key_is(#[trigger] s[w], c, id);
    if w == s.len() - 1 {
        assert(s.last() == s[w]);
        assert(pkg_key_is(r[r.len() - 1], c, id));
    } else {
        assert(pkg_key_is(s.drop_last()[w], c, id));
        lemma_remaining_has_pkg(s.drop_last(), entries, c, id);
        let v = choose|v: int| 0 <= v < rd.len() && pkg_key_is(#[trigger] rd[v], c, id);
        assert(pkg_key_is(r[v], c, id));
    }
}

} // verus!
