use logistics::carrier;
use logistics::package;
use logistics::settlement;
use logistics::types::PackageStatus;
use logistics::types::ProposalStatus;

const DEPOSIT: u64 = 10;
const DESC_MAX: u32 = 64;
const QUEUE_CAP: usize = 16;

fn system() -> settlement::Pallet {
    settlement::Pallet::new(DEPOSIT, DESC_MAX, QUEUE_CAP, 0)
}

fn create_ok(sys: &mut settlement::Pallet, who: u64, id: [u8; 32]) {
    let r = sys.package_create(
        who,
        id,
        b"index.home.raft".to_vec(),
        b"shade.arts.mild".to_vec(),
        b"a crate of oranges".to_vec(),
        10,
        20,
        30,
        40,
        false,
        true,
    );
    assert_eq!(r, Ok(()));
}

#[test]
fn full_flow_assign_collect_deliver() {
    let mut sys = system();
    let client: u64 = 1;
    let k1: u64 = 2;
    let k2: u64 = 3;
    let id = [1u8; 32];
    assert!(sys.endow(client, 200));

    create_ok(&mut sys, client, id);
    assert_eq!(sys.ledger.reserved_balance(client), DEPOSIT);
    assert_eq!(sys.ledger.free_balance(client), 190);
    assert_eq!(sys.package.package_status(client, &id), Some(PackageStatus::New));
    assert!(sys.package.has_manifest(client, &id));

    assert_eq!(sys.proposal_create(k1, client, id, 100, 20, 10, 5), Ok(()));
    assert_eq!(sys.proposal_create(k2, client, id, 90, 10, 5, 2), Ok(()));

    assert_eq!(sys.package_assign(client, id, k1), Ok(()));
    assert_eq!(sys.package.package_status(client, &id), Some(PackageStatus::Assigned));
    assert_eq!(sys.carrier.proposal_status(client, &id, k1), Some(ProposalStatus::Accepted));
    assert_eq!(sys.carrier.proposal_status(client, &id, k2), Some(ProposalStatus::Rejected));
    assert_eq!(sys.ledger.reserved_balance(client), DEPOSIT + 100);
    assert_eq!(sys.ledger.free_balance(client), 90);

    sys.on_initialize(50);
    assert_eq!(sys.package_collect(k1, id, client), Ok(()));
    assert_eq!(sys.package.package_status(client, &id), Some(PackageStatus::InTransit));
    assert_eq!(sys.package.package_collected_on(client, &id), Some(Some(50)));

    sys.on_initialize(80);
    // 30 blocks in transit, 3 full periods of 10, penalty 3 * 5 = 15:
    // the client pays max(100 - 15, 20) = 85 to the carrier.
    assert_eq!(sys.package_deliver(client, id, k1), Ok(()));
    assert_eq!(sys.package.package_status(client, &id), Some(PackageStatus::Delivered));
    assert_eq!(sys.package.package_delivered_on(client, &id), Some(Some(80)));
    assert_eq!(sys.ledger.free_balance(k1), 85);
    assert_eq!(sys.ledger.reserved_balance(client), 0);
    assert_eq!(sys.ledger.free_balance(client), 200 - 85);

    // The next block boundary sweeps the concluded records away.
    sys.on_initialize(81);
    assert_eq!(sys.package.package_status(client, &id), None);
    assert!(!sys.package.has_manifest(client, &id));
    assert_eq!(sys.carrier.proposal_status(client, &id, k1), None);
    assert_eq!(sys.carrier.proposal_status(client, &id, k2), None);
    // Funds are untouched by the sweep.
    assert_eq!(sys.ledger.free_balance(client), 115);
    assert_eq!(sys.ledger.free_balance(k1), 85);
}

#[test]
fn zero_penalty_period_is_rejected_at_creation() {
    let mut sys = system();
    let id = [2u8; 32];
    let r = sys.proposal_create(2, 1, id, 100, 20, 0, 5);
    assert_eq!(r, Err(settlement::Error::Carrier(carrier::Error::InvalidProposal)));
    assert_eq!(sys.carrier.proposal_status(1, &id, 2), None);
}

#[test]
fn cancelling_an_assigned_package_fails_with_state_error() {
    let mut sys = system();
    let client: u64 = 1;
    let k1: u64 = 2;
    let id = [3u8; 32];
    assert!(sys.endow(client, 200));
    create_ok(&mut sys, client, id);
    assert_eq!(sys.proposal_create(k1, client, id, 50, 5, 10, 1), Ok(()));
    assert_eq!(sys.package_assign(client, id, k1), Ok(()));

    let free_before = sys.ledger.free_balance(client);
    let reserved_before = sys.ledger.reserved_balance(client);
    let r = sys.package_cancel(client, id);
    assert_eq!(r, Err(settlement::Error::Package(package::Error::InvalidPackage)));
    // No funds moved.
    assert_eq!(sys.ledger.free_balance(client), free_before);
    assert_eq!(sys.ledger.reserved_balance(client), reserved_before);
    assert_eq!(sys.package.package_status(client, &id), Some(PackageStatus::Assigned));
}

#[test]
fn cancel_releases_the_base_deposit() {
    let mut sys = system();
    let client: u64 = 1;
    let id = [4u8; 32];
    assert!(sys.endow(client, 100));
    create_ok(&mut sys, client, id);
    assert_eq!(sys.ledger.reserved_balance(client), DEPOSIT);
    assert_eq!(sys.package_cancel(client, id), Ok(()));
    assert_eq!(sys.ledger.reserved_balance(client), 0);
    assert_eq!(sys.ledger.free_balance(client), 100);
    assert_eq!(sys.package.package_status(client, &id), Some(PackageStatus::Cancelled));
    // The sweeper then removes the cancelled record.
    sys.on_initialize(1);
    assert_eq!(sys.package.package_status(client, &id), None);
}

#[test]
fn create_validates_addresses_description_id_and_funds() {
    let mut sys = system();
    let client: u64 = 1;
    assert!(sys.endow(client, 100));
    let long = vec![7u8; 257];
    let ok_addr = b"index.home.raft".to_vec();
    let r = sys.package_create(
        client, [5u8; 32], long.clone(), ok_addr.clone(), b"d".to_vec(), 1, 1, 1, 1, false, false,
    );
    assert_eq!(r, Err(package::Error::InvalidThreeWordAddress));
    let r = sys.package_create(
        client, [5u8; 32], ok_addr.clone(), long, b"d".to_vec(), 1, 1, 1, 1, false, false,
    );
    assert_eq!(r, Err(package::Error::InvalidThreeWordAddress));
    let r = sys.package_create(
        client,
        [5u8; 32],
        ok_addr.clone(),
        ok_addr.clone(),
        vec![0u8; 65],
        1,
        1,
        1,
        1,
        false,
        false,
    );
    assert_eq!(r, Err(package::Error::InvalidDescription));
    create_ok(&mut sys, client, [5u8; 32]);
    let r = sys.package_create(
        client,
        [5u8; 32],
        ok_addr.clone(),
        ok_addr.clone(),
        b"d".to_vec(),
        1,
        1,
        1,
        1,
        false,
        false,
    );
    assert_eq!(r, Err(package::Error::PackageExists));
    // A client with too little free balance cannot even create.
    let poor: u64 = 9;
    assert!(sys.endow(poor, DEPOSIT - 1));
    let r = sys.package_create(
        poor, [6u8; 32], ok_addr.clone(), ok_addr, b"d".to_vec(), 1, 1, 1, 1, false, false,
    );
    assert_eq!(r, Err(package::Error::InsufficientFunds));
    assert_eq!(sys.ledger.reserved_balance(poor), 0);
}

#[test]
fn duplicate_proposal_is_rejected() {
    let mut sys = system();
    let id = [7u8; 32];
    assert_eq!(sys.proposal_create(2, 1, id, 100, 20, 10, 5), Ok(()));
    let r = sys.proposal_create(2, 1, id, 90, 10, 10, 5);
    assert_eq!(r, Err(settlement::Error::Carrier(carrier::Error::ProposalExists)));
}

#[test]
fn assign_requires_new_package_valid_proposal_and_funds() {
    let mut sys = system();
    let client: u64 = 1;
    let k1: u64 = 2;
    let id = [8u8; 32];
    assert!(sys.endow(client, 50));
    // No package at all.
    assert_eq!(
        sys.package_assign(client, id, k1),
        Err(settlement::Error::Package(package::Error::InvalidPackage))
    );
    create_ok(&mut sys, client, id);
    // No proposal yet.
    assert_eq!(
        sys.package_assign(client, id, k1),
        Err(settlement::Error::Carrier(carrier::Error::InvalidProposal))
    );
    // Fee larger than the free balance: 50 - 10 deposit leaves 40.
    assert_eq!(sys.proposal_create(k1, client, id, 100, 20, 10, 5), Ok(()));
    assert_eq!(sys.package_assign(client, id, k1), Err(settlement::Error::InsufficientFunds));
    assert_eq!(sys.package.package_status(client, &id), Some(PackageStatus::New));
    assert_eq!(sys.carrier.proposal_status(client, &id, k1), Some(ProposalStatus::Proposed));
    assert_eq!(sys.ledger.reserved_balance(client), DEPOSIT);
}

#[test]
fn assign_rejects_unrepresentable_fee() {
    let mut sys = system();
    let client: u64 = 1;
    let k1: u64 = 2;
    let id = [9u8; 32];
    assert!(sys.endow(client, 100));
    create_ok(&mut sys, client, id);
    let huge = (u64::MAX as u128) + 1;
    assert_eq!(sys.proposal_create(k1, client, id, huge, 0, 10, 5), Ok(()));
    assert_eq!(sys.package_assign(client, id, k1), Err(settlement::Error::InvalidFee));
    assert_eq!(sys.package.package_status(client, &id), Some(PackageStatus::New));
}

#[test]
fn collect_guards_carrier_and_status() {
    let mut sys = system();
    let client: u64 = 1;
    let k1: u64 = 2;
    let k2: u64 = 3;
    let id = [10u8; 32];
    assert!(sys.endow(client, 100));
    create_ok(&mut sys, client, id);
    // A still-new package has no carrier yet.
    assert_eq!(sys.package_collect(k1, id, client), Err(package::Error::InvalidCarrier));
    assert_eq!(sys.proposal_create(k1, client, id, 20, 5, 10, 1), Ok(()));
    assert_eq!(sys.package_assign(client, id, k1), Ok(()));
    // Only the assigned carrier may collect.
    assert_eq!(sys.package_collect(k2, id, client), Err(package::Error::InvalidCarrier));
    assert_eq!(sys.package_collect(k1, id, client), Ok(()));
    // A second collection finds the package already in transit.
    assert_eq!(
        sys.package_collect(k1, id, client),
        Err(package::Error::PackageCannotBeCollected)
    );
    // Unknown package.
    assert_eq!(
        sys.package_collect(k1, [11u8; 32], client),
        Err(package::Error::PackageDoesNotExist)
    );
}

#[test]
fn deliver_requires_transit_and_the_assigned_carrier() {
    let mut sys = system();
    let client: u64 = 1;
    let k1: u64 = 2;
    let k2: u64 = 3;
    let id = [12u8; 32];
    assert!(sys.endow(client, 100));
    create_ok(&mut sys, client, id);
    assert_eq!(sys.proposal_create(k1, client, id, 20, 5, 10, 1), Ok(()));
    assert_eq!(sys.proposal_create(k2, client, id, 30, 5, 10, 1), Ok(()));
    assert_eq!(
        sys.package_deliver(client, id, k1),
        Err(settlement::Error::Package(package::Error::InvalidPackage))
    );
    assert_eq!(sys.package_assign(client, id, k1), Ok(()));
    assert_eq!(sys.package_collect(k1, id, client), Ok(()));
    // Paying out against a competitor's bid would unbalance the escrow.
    assert_eq!(
        sys.package_deliver(client, id, k2),
        Err(settlement::Error::Package(package::Error::InvalidCarrier))
    );
    assert_eq!(sys.package_deliver(client, id, k1), Ok(()));
}

#[test]
fn deliver_is_atomic_when_keep_alive_fails() {
    // Existential minimum 60: after settling an 80-fee the client's free
    // balance would fall to 100 - 10 - 80 = 10 < 60, so the keep-alive
    // transfer is infeasible and nothing at all changes.
    let mut sys = settlement::Pallet::new(DEPOSIT, DESC_MAX, QUEUE_CAP, 60);
    let client: u64 = 1;
    let k1: u64 = 2;
    let id = [13u8; 32];
    assert!(sys.endow(client, 100));
    create_ok(&mut sys, client, id);
    assert_eq!(sys.proposal_create(k1, client, id, 80, 80, 10, 0), Ok(()));
    assert_eq!(sys.package_assign(client, id, k1), Ok(()));
    assert_eq!(sys.package_collect(k1, id, client), Ok(()));
    let r = sys.package_deliver(client, id, k1);
    assert_eq!(r, Err(settlement::Error::InsufficientFunds));
    assert_eq!(sys.package.package_status(client, &id), Some(PackageStatus::InTransit));
    assert_eq!(sys.ledger.reserved_balance(client), DEPOSIT + 80);
    assert_eq!(sys.ledger.free_balance(k1), 0);
}

#[test]
fn sweeper_queue_is_bounded_and_best_effort() {
    let mut sys = settlement::Pallet::new(DEPOSIT, DESC_MAX, 1, 0);
    let client: u64 = 1;
    assert!(sys.endow(client, 100));
    create_ok(&mut sys, client, [14u8; 32]);
    create_ok(&mut sys, client, [15u8; 32]);
    assert_eq!(sys.package_cancel(client, [14u8; 32]), Ok(()));
    assert_eq!(sys.package_cancel(client, [15u8; 32]), Ok(()));
    sys.on_initialize(1);
    // Only the queued entry was swept.  The overflowing one was never
    // queued, so it stays behind as a terminal, inert record for good: the
    // bounded-queue design accepts that loss rather than growing the
    // per-block sweep.
    assert_eq!(sys.package.package_status(client, &[14u8; 32]), None);
    assert_eq!(
        sys.package.package_status(client, &[15u8; 32]),
        Some(PackageStatus::Cancelled)
    );
}

#[test]
fn assignment_emits_rejections_and_keeps_records() {
    let mut sys = system();
    let client: u64 = 1;
    let k1: u64 = 2;
    let k2: u64 = 3;
    let id = [16u8; 32];
    assert!(sys.endow(client, 100));
    create_ok(&mut sys, client, id);
    assert_eq!(sys.proposal_create(k1, client, id, 20, 5, 10, 1), Ok(()));
    assert_eq!(sys.proposal_create(k2, client, id, 30, 5, 10, 1), Ok(()));
    assert_eq!(sys.package_assign(client, id, k1), Ok(()));
    let events = &sys.carrier.events;
    assert_eq!(
        events[events.len() - 2],
        carrier::Event::ProposalRejected { client, package: id, carrier: k2 }
    );
    assert_eq!(
        events[events.len() - 1],
        carrier::Event::ProposalAccepted { client, package: id, carrier: k1 }
    );
    let pevents = &sys.package.events;
    assert_eq!(
        pevents[pevents.len() - 1],
        package::Event::PackageAssigned { client, package: id, carrier: k1 }
    );
    // Rejection does not delete the record, so re-proposing still fails.
    assert_eq!(
        sys.proposal_create(k2, client, id, 25, 5, 10, 1),
        Err(settlement::Error::Carrier(carrier::Error::ProposalExists))
    );
}
