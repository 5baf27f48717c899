use settlement::competition::{Competition, SnakeGameCompetition};
use settlement::error::Error;
use settlement::gate::{STATUS_ACTIVE, STATUS_CLAIMED};
use settlement::leaderboard::PlayerScore;
use settlement::transfer::{Party, Transfer};

const ADMIN: u64 = 1;
const TOKEN: u64 = 100;
const FEE: i128 = 10_000_000;
const DEADLINE: u64 = 1_000;

fn contest() -> SnakeGameCompetition {
    let mut c = SnakeGameCompetition::new();
    assert_eq!(c.initialize(ADMIN, TOKEN, true), Ok(()));
    assert_eq!(c.create_competition(ADMIN, 7, DEADLINE, FEE, 0, true), Ok(()));
    c
}

fn play(c: &mut SnakeGameCompetition, player: u64, score: u64, now: u64) {
    assert_eq!(
        c.pay_entry_fee(player, now, true),
        Ok(Transfer { from: Party::Participant(player), to: Party::Custody, amount: FEE })
    );
    assert_eq!(c.submit_score(player, score, now, true), Ok(()));
}

fn prize(to: u64, amount: i128) -> Transfer {
    Transfer { from: Party::Custody, to: Party::Participant(to), amount }
}

#[test]
fn queries_before_initialize_give_defaults_for_the_contest() {
    let c = SnakeGameCompetition::new();
    assert_eq!(c.get_competition(), None);
    assert_eq!(c.get_leaderboard(), vec![]);
    assert_eq!(c.get_player_stats(5), None);
    assert_eq!(c.get_entry_fee(), 0);
    assert_eq!(c.get_admin(), None);
    assert_eq!(c.get_token(), None);
    assert_eq!(c.has_paid(5), false);
}

#[test]
fn queries_before_the_first_round_give_defaults() {
    let mut c = SnakeGameCompetition::new();
    assert_eq!(c.initialize(ADMIN, TOKEN, true), Ok(()));
    assert_eq!(c.get_admin(), Some(ADMIN));
    assert_eq!(c.get_token(), Some(TOKEN));
    assert_eq!(c.get_competition(), None);
    assert_eq!(c.get_leaderboard(), vec![]);
    assert_eq!(c.get_entry_fee(), 0);
    assert_eq!(c.has_paid(5), false);
}

#[test]
fn initialize_is_once_only() {
    let mut c = SnakeGameCompetition::new();
    assert_eq!(c.initialize(ADMIN, TOKEN, false), Err(Error::Unauthorized));
    assert_eq!(c.initialize(ADMIN, TOKEN, true), Ok(()));
    assert_eq!(c.initialize(2, 200, true), Err(Error::AlreadyInitialized));
    assert_eq!(c.get_admin(), Some(ADMIN));
}

#[test]
fn create_competition_opens_an_empty_round() {
    let c = contest();
    assert_eq!(
        c.get_competition(),
        Some(Competition {
            entry_fee: FEE,
            session_id: 7,
            deadline: DEADLINE,
            status: STATUS_ACTIVE,
            prize_pool: 0,
            total_players: 0,
        })
    );
    assert_eq!(c.get_entry_fee(), FEE);
}

#[test]
fn create_competition_checks_in_order() {
    let mut c = SnakeGameCompetition::new();
    assert_eq!(c.create_competition(ADMIN, 1, 10, FEE, 0, false), Err(Error::Unauthorized));
    assert_eq!(c.create_competition(ADMIN, 1, 10, FEE, 0, true), Err(Error::NotInitialized));
    assert_eq!(c.initialize(ADMIN, TOKEN, true), Ok(()));
    assert_eq!(c.create_competition(2, 1, 10, FEE, 0, true), Err(Error::Unauthorized));
    assert_eq!(c.create_competition(ADMIN, 1, 10, FEE, 10, true), Err(Error::InvalidDeadline));
    assert_eq!(c.create_competition(ADMIN, 1, 10, 0, 9, true), Err(Error::InvalidFee));
    assert_eq!(c.create_competition(ADMIN, 1, 10, -1, 9, true), Err(Error::InvalidFee));
    assert_eq!(c.get_competition(), None);
    assert_eq!(c.create_competition(ADMIN, 1, 10, FEE, 9, true), Ok(()));
    assert_eq!(
        c.create_competition(ADMIN, 2, 20, FEE, 15, true),
        Err(Error::CompetitionAlreadyActive)
    );
}

#[test]
fn an_expired_round_still_blocks_a_new_one_until_it_is_claimed() {
    let mut c = contest();
    assert_eq!(
        c.create_competition(ADMIN, 8, DEADLINE + 500, FEE, DEADLINE + 1, true),
        Err(Error::CompetitionAlreadyActive)
    );
    assert_eq!(c.end_competition(ADMIN, true), Ok(vec![]));
    assert_eq!(c.create_competition(ADMIN, 8, DEADLINE + 500, FEE, DEADLINE + 1, true), Ok(()));
}

#[test]
fn pay_then_submit_must_alternate() {
    let mut c = contest();
    assert_eq!(c.submit_score(5, 10, 1, true), Err(Error::PaymentRequired));
    assert!(c.pay_entry_fee(5, 1, true).is_ok());
    assert_eq!(c.has_paid(5), true);
    assert_eq!(c.pay_entry_fee(5, 2, true), Err(Error::AlreadyPaid));
    assert_eq!(c.submit_score(5, 10, 3, true), Ok(()));
    assert_eq!(c.has_paid(5), false);
    assert_eq!(c.submit_score(5, 10, 4, true), Err(Error::PaymentRequired));
    assert!(c.pay_entry_fee(5, 5, true).is_ok());
    assert_eq!(c.get_competition().unwrap().prize_pool, 2 * FEE);
}

#[test]
fn entries_are_taken_up_to_the_deadline_itself() {
    let mut c = contest();
    assert!(c.pay_entry_fee(5, DEADLINE, true).is_ok());
    assert_eq!(c.submit_score(5, 3, DEADLINE, true), Ok(()));
    assert_eq!(c.pay_entry_fee(6, DEADLINE + 1, true), Err(Error::CompetitionEnded));
    assert!(c.pay_entry_fee(5, DEADLINE, true).is_ok());
    assert_eq!(c.submit_score(5, 3, DEADLINE + 1, true), Err(Error::CompetitionEnded));
}

#[test]
fn entries_need_an_active_round() {
    let mut c = SnakeGameCompetition::new();
    assert_eq!(c.pay_entry_fee(5, 0, false), Err(Error::Unauthorized));
    assert_eq!(c.pay_entry_fee(5, 0, true), Err(Error::CompetitionNotActive));
    assert_eq!(c.submit_score(5, 1, 0, true), Err(Error::CompetitionNotActive));
    let mut c = contest();
    assert_eq!(c.end_competition(ADMIN, true), Ok(vec![]));
    assert_eq!(c.pay_entry_fee(5, 0, true), Err(Error::CompetitionNotActive));
    assert_eq!(c.submit_score(5, 1, 0, true), Err(Error::CompetitionNotActive));
}

#[test]
fn three_scores_are_ranked_and_a_later_game_reorders_them() {
    let mut c = contest();
    play(&mut c, 10, 10, 1);
    play(&mut c, 30, 30, 2);
    play(&mut c, 20, 20, 3);
    assert_eq!(
        c.get_leaderboard(),
        vec![
            PlayerScore { player: 30, total_games: 1, total_score: 30, rank: 1 },
            PlayerScore { player: 20, total_games: 1, total_score: 20, rank: 2 },
            PlayerScore { player: 10, total_games: 1, total_score: 10, rank: 3 },
        ]
    );
    assert_eq!(c.get_competition().unwrap().total_players, 3);
    play(&mut c, 10, 25, 4);
    assert_eq!(
        c.get_leaderboard(),
        vec![
            PlayerScore { player: 10, total_games: 2, total_score: 35, rank: 1 },
            PlayerScore { player: 30, total_games: 1, total_score: 30, rank: 2 },
            PlayerScore { player: 20, total_games: 1, total_score: 20, rank: 3 },
        ]
    );
    assert_eq!(c.get_competition().unwrap().total_players, 3);
    assert_eq!(c.get_competition().unwrap().prize_pool, 4 * FEE);
    assert_eq!(
        c.get_player_stats(30),
        Some(PlayerScore { player: 30, total_games: 1, total_score: 30, rank: 2 })
    );
    assert_eq!(c.get_player_stats(99), None);
}

#[test]
fn equal_scores_keep_the_order_in_which_they_came() {
    let mut c = contest();
    play(&mut c, 1, 5, 1);
    play(&mut c, 2, 5, 2);
    play(&mut c, 3, 9, 3);
    play(&mut c, 4, 5, 4);
    let board = c.get_leaderboard();
    let players: Vec<u64> = board.iter().map(|r| r.player).collect();
    assert_eq!(players, vec![3, 1, 2, 4]);
    play(&mut c, 4, 0, 5);
    let players: Vec<u64> = c.get_leaderboard().iter().map(|r| r.player).collect();
    assert_eq!(players, vec![3, 1, 2, 4]);
    play(&mut c, 2, 4, 6);
    let board = c.get_leaderboard();
    let players: Vec<u64> = board.iter().map(|r| r.player).collect();
    assert_eq!(players, vec![3, 2, 1, 4]);
    assert_eq!(board[1], PlayerScore { player: 2, total_games: 2, total_score: 9, rank: 2 });
}

#[test]
fn settlement_pays_the_cut_and_three_prizes() {
    let mut c = contest();
    play(&mut c, 10, 10, 1);
    play(&mut c, 30, 30, 2);
    play(&mut c, 20, 20, 3);
    play(&mut c, 40, 1, 4);
    let pool = 4 * FEE;
    let paid = c.end_competition(ADMIN, true);
    assert_eq!(
        paid,
        Ok(vec![
            prize(ADMIN, 4_000_000),
            prize(30, 18_000_000),
            prize(20, 10_800_000),
            prize(10, 7_200_000),
        ])
    );
    let sum: i128 = paid.unwrap().iter().map(|t| t.amount).sum();
    assert_eq!(sum, pool);
    assert_eq!(c.get_competition().unwrap().status, STATUS_CLAIMED);
    assert_eq!(c.get_competition().unwrap().prize_pool, pool);
}

#[test]
fn settlement_rounds_down_and_leaves_the_rest_in_custody() {
    let mut c = SnakeGameCompetition::new();
    assert_eq!(c.initialize(ADMIN, TOKEN, true), Ok(()));
    assert_eq!(c.create_competition(ADMIN, 1, DEADLINE, 33, 0, true), Ok(()));
    assert!(c.pay_entry_fee(5, 1, true).is_ok());
    assert_eq!(c.submit_score(5, 1, 1, true), Ok(()));
    assert!(c.pay_entry_fee(6, 1, true).is_ok());
    assert_eq!(c.submit_score(6, 2, 1, true), Ok(()));
    assert!(c.pay_entry_fee(7, 1, true).is_ok());
    assert_eq!(c.submit_score(7, 3, 1, true), Ok(()));
    // pool 99: cut 9, rest 90 -> 45, 27, 18
    assert_eq!(
        c.end_competition(ADMIN, true),
        Ok(vec![prize(ADMIN, 9), prize(7, 45), prize(6, 27), prize(5, 18)])
    );
}

#[test]
fn settlement_with_fewer_than_three_players_pays_only_the_ranks_held() {
    let mut c = SnakeGameCompetition::new();
    assert_eq!(c.initialize(ADMIN, TOKEN, true), Ok(()));
    assert_eq!(c.create_competition(ADMIN, 1, DEADLINE, 7, 0, true), Ok(()));
    assert!(c.pay_entry_fee(5, 1, true).is_ok());
    assert_eq!(c.submit_score(5, 1, 1, true), Ok(()));
    assert!(c.pay_entry_fee(5, 1, true).is_ok());
    assert_eq!(c.submit_score(5, 1, 1, true), Ok(()));
    assert!(c.pay_entry_fee(5, 1, true).is_ok());
    // pool 21: cut 2, rest 19 -> 9 for the only rank
    let paid = c.end_competition(ADMIN, true).unwrap();
    assert_eq!(paid, vec![prize(ADMIN, 2), prize(5, 9)]);
    let sum: i128 = paid.iter().map(|t| t.amount).sum();
    assert!(sum <= 21);
}

#[test]
fn settlement_of_an_empty_board_pays_nothing() {
    let mut c = contest();
    assert!(c.pay_entry_fee(5, 1, true).is_ok());
    assert_eq!(c.end_competition(ADMIN, true), Ok(vec![]));
    assert_eq!(c.get_competition().unwrap().status, STATUS_CLAIMED);
}

#[test]
fn settlement_happens_once_and_only_by_the_admin() {
    let mut c = contest();
    play(&mut c, 10, 10, 1);
    assert_eq!(c.end_competition(ADMIN, false), Err(Error::Unauthorized));
    assert_eq!(c.end_competition(2, true), Err(Error::Unauthorized));
    assert_eq!(c.get_competition().unwrap().status, STATUS_ACTIVE);
    assert!(c.end_competition(ADMIN, true).is_ok());
    assert_eq!(c.end_competition(ADMIN, true), Err(Error::CompetitionNotActive));
    let mut fresh = SnakeGameCompetition::new();
    assert_eq!(fresh.end_competition(ADMIN, true), Err(Error::NotInitialized));
    assert_eq!(fresh.initialize(ADMIN, TOKEN, true), Ok(()));
    assert_eq!(fresh.end_competition(ADMIN, true), Err(Error::CompetitionNotActive));
}

#[test]
fn a_new_round_forgets_the_board_and_the_paid_flags() {
    let mut c = contest();
    play(&mut c, 10, 10, 1);
    assert!(c.pay_entry_fee(11, 1, true).is_ok());
    assert!(c.end_competition(ADMIN, true).is_ok());
    assert_eq!(c.get_leaderboard().len(), 1);
    assert_eq!(c.create_competition(ADMIN, 8, 5_000, 3, 2_000, true), Ok(()));
    assert_eq!(c.get_leaderboard(), vec![]);
    assert_eq!(c.has_paid(11), false);
    assert_eq!(c.get_player_stats(10), None);
    assert_eq!(c.get_entry_fee(), 3);
    assert_eq!(c.get_competition().unwrap().prize_pool, 0);
}
