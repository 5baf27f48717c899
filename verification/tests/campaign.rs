use settlement::campaign::CrowdfundingContract;
use settlement::error::Error;
use settlement::transfer::{Party, Transfer};

const OWNER: u64 = 1;
const DONOR: u64 = 2;
const NON_DONOR: u64 = 3;
const TOKEN: u64 = 100;
const START: u64 = 0;

fn campaign(goal: i128, deadline: u64) -> CrowdfundingContract {
    let mut c = CrowdfundingContract::new();
    assert_eq!(c.initialize(OWNER, goal, deadline, TOKEN, true), Ok(()));
    c
}

fn give(c: &mut CrowdfundingContract, donor: u64, amount: i128, now: u64) {
    if let Err(e) = c.donate(donor, amount, now, true) {
        panic!("{}", e.message());
    }
}

fn take_back(c: &mut CrowdfundingContract, donor: u64, now: u64) -> i128 {
    match c.refund(donor, now, true) {
        Ok(t) => t.amount,
        Err(e) => panic!("{}", e.message()),
    }
}

#[test]
fn test_initialize_campaign() {
    let goal = 900_000_000i128;
    let deadline = START + 86400;
    let c = campaign(goal, deadline);
    assert_eq!(c.get_total_raised(), 0);
    assert_eq!(c.get_goal(), goal);
    assert_eq!(c.get_deadline(), deadline);
    assert_eq!(c.get_is_already_init(), true);
}

#[test]
fn test_get_donation_no_donation() {
    let c = campaign(900_000_000i128, START + 86400);
    assert_eq!(c.get_donation(NON_DONOR), 0);
}

#[test]
#[should_panic(expected = "Donation amount must be positive")]
fn test_donate_zero_amount() {
    let mut c = campaign(900_000_000i128, START + 86400);
    give(&mut c, DONOR, 0, START);
}

#[test]
#[should_panic(expected = "Donation amount must be positive")]
fn test_donate_negative_amount() {
    let mut c = campaign(900_000_000i128, START + 86400);
    give(&mut c, DONOR, -100_000_000, START);
}

#[test]
#[should_panic(expected = "Campaign has ended")]
fn test_donate_after_deadline() {
    let deadline = START + 100;
    let mut c = campaign(900_000_000i128, deadline);
    give(&mut c, DONOR, 100_000_000, deadline + 1);
}

#[test]
fn test_is_already_init_before_initialization() {
    let c = CrowdfundingContract::new();
    assert_eq!(c.get_is_already_init(), false);
}

#[test]
fn test_is_already_init_after_initialization() {
    let mut c = CrowdfundingContract::new();
    assert_eq!(c.get_is_already_init(), false);
    assert_eq!(c.initialize(OWNER, 900_000_000i128, START + 86400, TOKEN, true), Ok(()));
    assert_eq!(c.get_is_already_init(), true);
}

#[test]
fn test_is_already_init_persists() {
    let c = campaign(900_000_000i128, START + 86400);
    assert_eq!(c.get_is_already_init(), true);
    let _ = c.get_total_raised();
    let _ = c.get_donation(DONOR);
    assert_eq!(c.get_is_already_init(), true);
}

#[test]
fn test_get_goal() {
    let goal = 100_000_000i128;
    let c = campaign(goal, START + 86400);
    assert_eq!(c.get_goal(), goal);
}

#[test]
fn test_get_deadline() {
    let deadline = START + 86400;
    let c = campaign(100_000_000i128, deadline);
    assert_eq!(c.get_deadline(), deadline);
}

#[test]
fn test_is_goal_reached() {
    let mut c = campaign(50_000_000i128, START + 86400);
    assert_eq!(c.is_goal_reached(), false);
    give(&mut c, DONOR, 30_000_000, START);
    assert_eq!(c.is_goal_reached(), false);
    give(&mut c, DONOR, 20_000_000, START);
    assert_eq!(c.is_goal_reached(), true);
    give(&mut c, DONOR, 10_000_000, START);
    assert_eq!(c.is_goal_reached(), true);
}

#[test]
fn test_is_ended() {
    let deadline = START + 1000;
    let c = campaign(100_000_000i128, deadline);
    assert_eq!(c.is_ended(START), false);
    assert_eq!(c.is_ended(deadline), false);
    assert_eq!(c.is_ended(deadline + 1), true);
}

#[test]
fn test_get_progress_percentage() {
    let mut c = campaign(100_000_000i128, START + 86400);
    assert_eq!(c.get_progress_percentage(), 0);
    give(&mut c, DONOR, 25_000_000, START);
    assert_eq!(c.get_progress_percentage(), 25);
    give(&mut c, DONOR, 25_000_000, START);
    assert_eq!(c.get_progress_percentage(), 50);
    give(&mut c, DONOR, 50_000_000, START);
    assert_eq!(c.get_progress_percentage(), 100);
    give(&mut c, DONOR, 20_000_000, START);
    assert_eq!(c.get_progress_percentage(), 120);
}

#[test]
fn test_refund_success() {
    let deadline = START + 100;
    let mut c = campaign(100_000_000i128, deadline);
    let donation_amount = 30_000_000i128;
    give(&mut c, DONOR, donation_amount, START);
    assert_eq!(c.get_donation(DONOR), donation_amount);
    assert_eq!(c.get_total_raised(), donation_amount);
    let refunded = take_back(&mut c, DONOR, deadline + 1);
    assert_eq!(refunded, donation_amount);
    assert_eq!(c.get_donation(DONOR), 0);
    assert_eq!(c.get_total_raised(), 0);
}

#[test]
#[should_panic(expected = "Campaign belum berakhir")]
fn test_refund_before_deadline() {
    let mut c = campaign(100_000_000i128, START + 1000);
    give(&mut c, DONOR, 30_000_000, START);
    take_back(&mut c, DONOR, START);
}

#[test]
#[should_panic(expected = "Goal sudah tercapai, tidak bisa refund")]
fn test_refund_when_goal_reached() {
    let goal = 50_000_000i128;
    let deadline = START + 100;
    let mut c = campaign(goal, deadline);
    give(&mut c, DONOR, goal, START);
    take_back(&mut c, DONOR, deadline + 1);
}

#[test]
#[should_panic(expected = "No donations found for this address")]
fn test_refund_no_donations() {
    let deadline = START + 100;
    let mut c = campaign(100_000_000i128, deadline);
    take_back(&mut c, NON_DONOR, deadline + 1);
}

#[test]
fn donate_names_the_transfer_into_custody() {
    let mut c = campaign(100, 10);
    assert_eq!(
        c.donate(DONOR, 40, 5, true),
        Ok(Transfer { from: Party::Participant(DONOR), to: Party::Custody, amount: 40 })
    );
}

#[test]
fn refund_names_the_transfer_out_of_custody() {
    let mut c = campaign(100, 10);
    give(&mut c, DONOR, 40, 5);
    assert_eq!(
        c.refund(DONOR, 11, true),
        Ok(Transfer { from: Party::Custody, to: Party::Participant(DONOR), amount: 40 })
    );
}

#[test]
fn initialize_twice_is_refused() {
    let mut c = campaign(100, 10);
    assert_eq!(c.initialize(OWNER, 5, 5, TOKEN, true), Err(Error::AlreadyInitialized));
    assert_eq!(c.get_goal(), 100);
    assert_eq!(c.get_deadline(), 10);
}

#[test]
fn unproven_caller_is_refused_first() {
    let mut c = CrowdfundingContract::new();
    assert_eq!(c.initialize(OWNER, 100, 10, TOKEN, false), Err(Error::Unauthorized));
    assert_eq!(c.get_is_already_init(), false);
    assert_eq!(c.donate(DONOR, 0, 99, false), Err(Error::Unauthorized));
    assert_eq!(c.refund(DONOR, 0, false), Err(Error::Unauthorized));
}

#[test]
fn calls_before_initialize_are_refused() {
    let mut c = CrowdfundingContract::new();
    assert_eq!(c.donate(DONOR, 10, 0, true), Err(Error::NotInitialized));
    assert_eq!(c.refund(DONOR, 1, true), Err(Error::NotInitialized));
}

#[test]
fn queries_before_initialize_give_defaults() {
    let c = CrowdfundingContract::new();
    assert_eq!(c.get_total_raised(), 0);
    assert_eq!(c.get_donation(DONOR), 0);
    assert_eq!(c.get_goal(), 0);
    assert_eq!(c.get_deadline(), 0);
    assert_eq!(c.is_goal_reached(), false);
    assert_eq!(c.is_ended(u64::MAX), false);
    assert_eq!(c.get_progress_percentage(), 0);
    assert_eq!(c.get_owner(), None);
    assert_eq!(c.get_token(), None);
}

#[test]
fn donation_at_the_deadline_is_taken_and_one_tick_later_refused() {
    let mut c = campaign(1_000, 500);
    assert!(c.donate(DONOR, 1, 500, true).is_ok());
    assert_eq!(c.donate(DONOR, 1, 501, true), Err(Error::CampaignEnded));
    assert_eq!(c.get_total_raised(), 1);
}

#[test]
fn second_refund_finds_no_donation() {
    let mut c = campaign(1_000, 500);
    give(&mut c, DONOR, 300, 1);
    give(&mut c, NON_DONOR, 200, 2);
    assert_eq!(take_back(&mut c, DONOR, 501), 300);
    assert_eq!(c.refund(DONOR, 502, true), Err(Error::NoDonationFound));
    assert_eq!(c.get_total_raised(), 200);
    assert_eq!(c.get_donation(NON_DONOR), 200);
}

#[test]
fn total_raised_is_the_sum_of_what_was_not_refunded() {
    let mut c = campaign(10_000, 500);
    give(&mut c, 10, 100, 1);
    give(&mut c, 11, 250, 2);
    give(&mut c, 10, 50, 3);
    give(&mut c, 12, 7, 4);
    assert_eq!(c.get_total_raised(), 407);
    assert_eq!(c.get_donation(10) + c.get_donation(11) + c.get_donation(12), 407);
    assert_eq!(take_back(&mut c, 10, 501), 150);
    assert_eq!(c.get_total_raised(), 257);
    assert_eq!(c.get_donation(10) + c.get_donation(11) + c.get_donation(12), 257);
}

#[test]
fn progress_rounds_towards_zero() {
    let mut c = campaign(3, 10);
    give(&mut c, DONOR, 1, 0);
    assert_eq!(c.get_progress_percentage(), 33);
    give(&mut c, DONOR, 1, 0);
    assert_eq!(c.get_progress_percentage(), 66);
    let mut odd = campaign(-3, 10);
    give(&mut odd, DONOR, 2, 0);
    assert_eq!(odd.get_progress_percentage(), -66);
    assert_eq!(odd.get_progress_percentage(), (2i128 * 100) / -3);
}

#[test]
fn progress_is_zero_for_a_goal_of_zero() {
    let mut c = campaign(0, 10);
    give(&mut c, DONOR, 5, 0);
    assert_eq!(c.get_progress_percentage(), 0);
}

#[test]
fn progress_of_large_amounts_does_not_overflow() {
    let goal = i128::MAX / 2;
    let mut c = campaign(goal, 10);
    give(&mut c, DONOR, i128::MAX - 1, 0);
    assert_eq!(c.get_progress_percentage(), 200);
    let mut d = campaign(i128::MAX, 10);
    give(&mut d, DONOR, i128::MAX / 3, 0);
    assert_eq!(d.get_progress_percentage(), 33);
}

#[test]
fn error_messages_are_the_hosts_abort_texts() {
    assert_eq!(Error::CampaignEnded.message(), "Campaign has ended");
    assert_eq!(Error::NoDonationFound.message(), "No donations found for this address");
    assert_eq!(Error::AlreadyInitialized.message(), "Already initialized");
}
