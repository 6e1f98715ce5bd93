use logistics::carrier;
use logistics::types::ProposalStatus;

fn manager_with_three_bids() -> (carrier::Pallet, [u8; 32]) {
    let mut m = carrier::Pallet::new();
    let id = [1u8; 32];
    assert_eq!(m.proposal_create(2, 1, id, 100, 20, 10, 5, 0), Ok(()));
    assert_eq!(m.proposal_create(3, 1, id, 90, 10, 5, 2, 0), Ok(()));
    assert_eq!(m.proposal_create(4, 1, id, 80, 15, 7, 3, 0), Ok(()));
    (m, id)
}

#[test]
fn reject_all_except_is_idempotent_on_statuses() {
    let (mut m, id) = manager_with_three_bids();
    m.reject_proposals(1, &id, 2);
    let first = (
        m.proposal_status(1, &id, 2),
        m.proposal_status(1, &id, 3),
        m.proposal_status(1, &id, 4),
    );
    assert_eq!(first.0, Some(ProposalStatus::Proposed));
    assert_eq!(first.1, Some(ProposalStatus::Rejected));
    assert_eq!(first.2, Some(ProposalStatus::Rejected));
    m.reject_proposals(1, &id, 2);
    let second = (
        m.proposal_status(1, &id, 2),
        m.proposal_status(1, &id, 3),
        m.proposal_status(1, &id, 4),
    );
    assert_eq!(first, second);
}

#[test]
fn proposal_accept_resolves_all_bids() {
    let (mut m, id) = manager_with_three_bids();
    assert_eq!(m.proposal_accept(1, id, 3), Ok(()));
    assert_eq!(m.proposal_status(1, &id, 2), Some(ProposalStatus::Rejected));
    assert_eq!(m.proposal_status(1, &id, 3), Some(ProposalStatus::Accepted));
    assert_eq!(m.proposal_status(1, &id, 4), Some(ProposalStatus::Rejected));
    // An already-resolved bid is no longer open for acceptance.
    assert_eq!(m.proposal_accept(1, id, 2), Err(carrier::Error::InvalidProposal));
    assert_eq!(m.proposal_accept(1, id, 3), Err(carrier::Error::InvalidProposal));
}

#[test]
fn proposal_is_valid_only_while_proposed() {
    let (mut m, id) = manager_with_three_bids();
    assert!(m.proposal_is_valid(1, &id, 2));
    m.reject_proposals(1, &id, 4);
    assert!(!m.proposal_is_valid(1, &id, 2));
    assert!(m.proposal_is_valid(1, &id, 4));
    assert!(!m.proposal_is_valid(1, &id, 9));
}

#[test]
fn maximum_fee_reads_the_stored_bid() {
    let (m, id) = manager_with_three_bids();
    assert_eq!(m.proposal_maximum_fee_amount(1, &id, 2), Some(100));
    assert_eq!(m.proposal_maximum_fee_amount(1, &id, 3), Some(90));
    assert_eq!(m.proposal_maximum_fee_amount(1, &id, 9), None);
}

#[test]
fn final_fee_decays_per_period_and_floors_at_minimum() {
    let (m, id) = manager_with_three_bids();
    // Carrier 2: max 100, min 20, period 10, amount 5.
    assert_eq!(m.calculate_final_fee_amount(1, &id, 2, 50, 50), Ok(100));
    assert_eq!(m.calculate_final_fee_amount(1, &id, 2, 50, 59), Ok(100));
    assert_eq!(m.calculate_final_fee_amount(1, &id, 2, 50, 60), Ok(95));
    assert_eq!(m.calculate_final_fee_amount(1, &id, 2, 50, 80), Ok(85));
    // 16 periods would cost 80; the fee floors at the minimum of 20.
    assert_eq!(m.calculate_final_fee_amount(1, &id, 2, 50, 210), Ok(20));
    assert_eq!(m.calculate_final_fee_amount(1, &id, 9, 50, 80), Err(
        carrier::Error::ProposalDoesNotExist,
    ));
}

#[test]
fn final_fee_saturates_on_huge_penalties() {
    let mut m = carrier::Pallet::new();
    let id = [2u8; 32];
    assert_eq!(m.proposal_create(2, 1, id, 10, 2, 1, u128::MAX, 0), Ok(()));
    // A single period already saturates the penalty far past the maximum.
    assert_eq!(m.calculate_final_fee_amount(1, &id, 2, 0, 1), Ok(2));
    // Many periods overflow the penalty multiplication; still the minimum.
    assert_eq!(m.calculate_final_fee_amount(1, &id, 2, 0, 1000), Ok(2));
}

#[test]
fn final_fee_keeps_minimum_even_above_maximum() {
    // The managers do not validate maximum >= minimum; the fee then floors
    // at the (larger) minimum.
    let mut m = carrier::Pallet::new();
    let id = [3u8; 32];
    assert_eq!(m.proposal_create(2, 1, id, 10, 50, 1, 1, 0), Ok(()));
    assert_eq!(m.calculate_final_fee_amount(1, &id, 2, 0, 0), Ok(50));
    assert_eq!(m.calculate_final_fee_amount(1, &id, 2, 0, 5), Ok(50));
}

#[test]
fn remove_concluded_proposals_clears_one_package_only() {
    let mut m = carrier::Pallet::new();
    let id_a = [4u8; 32];
    let id_b = [5u8; 32];
    assert_eq!(m.proposal_create(2, 1, id_a, 10, 2, 1, 1, 0), Ok(()));
    assert_eq!(m.proposal_create(3, 1, id_a, 10, 2, 1, 1, 0), Ok(()));
    assert_eq!(m.proposal_create(2, 1, id_b, 10, 2, 1, 1, 0), Ok(()));
    m.remove_concluded_proposals(1, id_a);
    assert_eq!(m.proposal_status(1, &id_a, 2), None);
    assert_eq!(m.proposal_status(1, &id_a, 3), None);
    assert_eq!(m.proposal_status(1, &id_b, 2), Some(ProposalStatus::Proposed));
}
