//! The contest: rounds that players pay to enter, a leaderboard, and the
//! payout of the pool by rank.
//!
//! This engine is built to one profile. The entry fee is fixed when the round
//! is created. Paying and playing are two calls that alternate per player.
//! At settlement the admin takes ten percent of the pool, and fifty, thirty
//! and twenty percent of what is left go to the first three ranks. The admin
//! may settle an active round at any time, also before its deadline.
//!
//! A round is active until it is settled and claimed from then on. A new
//! round needs the one before to be claimed, and starts with an empty board.

use vstd::prelude::*;
use std::collections::BTreeMap;
use crate::error::Error;
use crate::gate::{
    gate, may_settle, settlement_allowed, window, Gate, STATUS_ACTIVE, STATUS_CLAIMED,
};
use crate::leaderboard::{
    arranged, can_count, has_player, index_of, upserted, well_ranked, Leaderboard, PlayerScore,
};
use crate::splitter::{remainder, share, split, sum_to, Split};
use crate::transfer::{deposit, payout, Party, Transfer};

verus! {

/// One round of the contest.
#[derive(Clone, Copy, Debug, PartialEq, Eq, Structural)]
pub struct Competition {
    pub entry_fee: i128,
    pub session_id: u32,
    pub deadline: u64,
    pub status: u32,
    pub prize_pool: i128,
    pub total_players: u32,
}

/// A contest as the contracts speak of it.
#[verifier::ext_equal]
pub struct ContestView {
    pub admin: Option<u64>,
    pub token: Option<u64>,
    pub session: Option<Competition>,
    pub paid: Map<u64, bool>,
    pub leaderboard: Seq<PlayerScore>,
}

/// A contest on which `initialize` has not run yet.
pub open spec fn blank() -> ContestView {
    ContestView {
        admin: None,
        token: None,
        session: None,
        paid: Map::empty(),
        leaderboard: Seq::empty(),
    }
}

/// Whether `player` has paid for a game and not yet submitted its score.
pub open spec fn paid_up(v: ContestView, player: u64) -> bool {
    v.paid.dom().contains(player) && v.paid[player]
}

/// Whether a round is open for settlement: it exists and was not claimed.
pub open spec fn active(v: ContestView) -> bool {
    v.session matches Some(c) && settlement_allowed(c.status)
}

/// What holds of a contest at every point: the board is ranked and has one
/// line per player the round counts, the fee is positive, and the pool is
/// what the entries of the round have paid in, a whole number of fees.
/// Settlement leaves the pool as it stands.
pub open spec fn valid(v: ContestView) -> bool {
    &&& v.paid.dom().finite()
    &&& well_ranked(v.leaderboard)
    &&& v.admin is Some <==> v.token is Some
    &&& v.admin is None ==> v.session is None
    &&& v.session is None ==> v.paid == Map::<u64, bool>::empty() && v.leaderboard.len() == 0
    &&& v.session matches Some(c) ==> {
        &&& c.entry_fee > 0
        &&& c.prize_pool >= 0
        &&& c.prize_pool % c.entry_fee == 0
        &&& (c.status == STATUS_ACTIVE || c.status == STATUS_CLAIMED)
        &&& c.total_players == v.leaderboard.len()
    }
}

/// Why `initialize` refuses, if it does.
pub open spec fn initialize_refusal(v: ContestView, authorized: bool) -> Option<Error> {
    if !authorized {
        Some(Error::Unauthorized)
    } else if v.admin is Some {
        Some(Error::AlreadyInitialized)
    } else {
        None
    }
}

/// Why a call that only the admin may make is refused on the caller's
/// account, if it is.
pub open spec fn admin_refusal(v: ContestView, admin: u64, authorized: bool) -> Option<Error> {
    if !authorized {
        Some(Error::Unauthorized)
    } else if v.admin is None {
        Some(Error::NotInitialized)
    } else if v.admin != Some(admin) {
        Some(Error::Unauthorized)
    } else {
        None
    }
}

/// Why `create_competition` refuses, if it does.
pub open spec fn create_refusal(
    v: ContestView,
    admin: u64,
    deadline: u64,
    entry_fee: i128,
    now: u64,
    authorized: bool,
) -> Option<Error> {
    if admin_refusal(v, admin, authorized) is Some {
        admin_refusal(v, admin, authorized)
    } else if active(v) {
        Some(Error::CompetitionAlreadyActive)
    } else if deadline <= now {
        Some(Error::InvalidDeadline)
    } else if entry_fee <= 0 {
        Some(Error::InvalidFee)
    } else {
        None
    }
}

/// A round as it starts: active, with an empty pool and no players.
pub open spec fn opened(session_id: u32, deadline: u64, entry_fee: i128) -> Competition {
    Competition {
        entry_fee,
        session_id,
        deadline,
        status: STATUS_ACTIVE,
        prize_pool: 0,
        total_players: 0,
    }
}

/// The contest once a new round has started: the board and the paid flags
/// of the round before are gone.
pub open spec fn after_create(v: ContestView, session_id: u32, deadline: u64, entry_fee: i128)
    -> ContestView {
    ContestView {
        session: Some(opened(session_id, deadline, entry_fee)),
        paid: Map::empty(),
        leaderboard: Seq::empty(),
        ..v
    }
}

/// Why an entry or a score is refused on the round's account, if it is:
/// there must be an active round, and its deadline must not have passed.
pub open spec fn round_refusal(v: ContestView, now: u64, authorized: bool) -> Option<Error> {
    if !authorized {
        Some(Error::Unauthorized)
    } else if !active(v) {
        Some(Error::CompetitionNotActive)
    } else if window(now, v.session.unwrap().deadline) == Gate::Closed {
        Some(Error::CompetitionEnded)
    } else {
        None
    }
}

/// Why `pay_entry_fee` refuses, if it does.
pub open spec fn pay_refusal(v: ContestView, player: u64, now: u64, authorized: bool) -> Option<
    Error,
> {
    if round_refusal(v, now, authorized) is Some {
        round_refusal(v, now, authorized)
    } else if paid_up(v, player) {
        Some(Error::AlreadyPaid)
    } else {
        None
    }
}

/// The contest once `player` has paid the entry fee.
pub open spec fn after_pay(v: ContestView, player: u64) -> ContestView {
    let c = v.session.unwrap();
    ContestView {
        session: Some(Competition { prize_pool: (c.prize_pool + c.entry_fee) as i128, ..c }),
        paid: v.paid.insert(player, true),
        ..v
    }
}

/// Why `submit_score` refuses, if it does.
pub open spec fn submit_refusal(v: ContestView, player: u64, now: u64, authorized: bool) -> Option<
    Error,
> {
    if round_refusal(v, now, authorized) is Some {
        round_refusal(v, now, authorized)
    } else if !paid_up(v, player) {
        Some(Error::PaymentRequired)
    } else {
        None
    }
}

/// Whether `after` is the contest `v` once `player` has submitted `score`:
/// the paid flag is used up, the game is counted on the player's line or on
/// a new one, the board is in order again with every line carrying its
/// place, and the round counts one more player if the player is new.
pub open spec fn submitted(v: ContestView, player: u64, score: u64, after: ContestView) -> bool {
    let c = v.session.unwrap();
    &&& after.admin == v.admin
    &&& after.token == v.token
    &&& after.paid == v.paid.insert(player, false)
    &&& arranged(upserted(v.leaderboard, player, score), after.leaderboard)
    &&& well_ranked(after.leaderboard)
    &&& after.session == Some(
        Competition {
            total_players: if has_player(v.leaderboard, player) {
                c.total_players
            } else {
                (c.total_players + 1) as u32
            },
            ..c
        },
    )
}

/// The admin's cut of the pool, in hundredths.
pub const ADMIN_FEE_PERCENT: u32 = 10;

/// How many ranks are paid.
pub const PAID_RANKS: usize = 3;

/// The hundredths of what the admin's cut leaves that the rank at place
/// `i`, counted from zero, is paid.
pub open spec fn tier(i: int) -> u32 {
    if i == 0 {
        50
    } else if i == 1 {
        30
    } else if i == 2 {
        20
    } else {
        0
    }
}

/// The tiers of the first `n` ranks.
pub open spec fn tiers(n: int) -> Seq<u32> {
    Seq::new(n as nat, |i: int| tier(i))
}

/// How many ranks of a board are paid: the first three, or all if there
/// are fewer.
pub open spec fn paid_ranks(board: Seq<PlayerScore>) -> int {
    if board.len() < 3 {
        board.len() as int
    } else {
        3
    }
}

/// Why `end_competition` refuses, if it does.
pub open spec fn end_refusal(v: ContestView, admin: u64, authorized: bool) -> Option<Error> {
    if admin_refusal(v, admin, authorized) is Some {
        admin_refusal(v, admin, authorized)
    } else if !active(v) {
        Some(Error::CompetitionNotActive)
    } else {
        None
    }
}

/// The transfers that settle the round: nothing where the pool or the board
/// is empty; else the admin's cut first, then the prizes of the paid ranks
/// from the first down. What rounding leaves over, and the tiers of ranks
/// that nobody holds, stay in custody.
pub open spec fn payouts(v: ContestView) -> Seq<Transfer> {
    let pool = v.session.unwrap().prize_pool;
    if pool > 0 && v.leaderboard.len() > 0 {
        let rest = remainder(pool as int, ADMIN_FEE_PERCENT as int);
        seq![payout(v.admin.unwrap(), share(pool as int, ADMIN_FEE_PERCENT as int) as i128)]
            + Seq::new(
            paid_ranks(v.leaderboard) as nat,
            |i: int| payout(v.leaderboard[i].player, share(rest, tier(i) as int) as i128),
        )
    } else {
        Seq::empty()
    }
}

/// The sum of the amounts of the first `n` transfers.
pub open spec fn paid_out(ts: Seq<Transfer>, n: int) -> int
    decreases n,
{
    if n <= 0 {
        0
    } else {
        paid_out(ts, n - 1) + ts[n - 1].amount
    }
}

/// The contest once the round is settled: claimed, and otherwise as it
/// was.
pub open spec fn after_end(v: ContestView) -> ContestView {
    ContestView {
        session: Some(Competition { status: STATUS_CLAIMED, ..v.session.unwrap() }),
        ..v
    }
}

/// The paid flags of the players in `ids`, and of nobody else.
pub open spec fn flags(ids: Seq<u64>) -> Map<u64, bool> {
    Map::new(|k: u64| ids.contains(k), |k: u64| true)
}

/// An initialized contest made of the given parts.
pub open spec fn assembled(
    admin: u64,
    token: u64,
    session: Option<Competition>,
    paid: Seq<u64>,
    rows: Seq<PlayerScore>,
) -> ContestView {
    ContestView {
        admin: Some(admin),
        token: Some(token),
        session,
        paid: flags(paid),
        leaderboard: rows,
    }
}

/// The state of the contest: who runs it, the round, who has paid for a
/// game, and the leaderboard.
pub struct SnakeGameCompetition {
    admin: Option<u64>,
    token: Option<u64>,
    session: Option<Competition>,
    paid: BTreeMap<u64, bool>,
    board: Leaderboard,
}

impl View for SnakeGameCompetition {
    type V = ContestView;

    closed spec fn view(&self) -> ContestView {
        ContestView {
            admin: self.admin,
            token: self.token,
            session: self.session,
            paid: self.paid@,
            leaderboard: self.board@,
        }
    }
}

impl SnakeGameCompetition {
    pub open spec fn wf(&self) -> bool {
        valid(self@)
    }

    /// A contest that waits for `initialize`.
    pub fn new() -> (c: SnakeGameCompetition)
        ensures
            c.wf(),
            c@ == blank(),
    {
        let c = SnakeGameCompetition {
            admin: None,
            token: None,
            session: None,
            paid: BTreeMap::new(),
            board: Leaderboard::new(),
        };
        assert(c@ =~= blank());
        c
    }

    /// Puts an initialized contest together again from what was stored of
    /// it: the round, the players who have paid and not yet played, and the
    /// board. Gives nothing where the parts do not make a contest that the
    /// operations could have left behind.
    pub fn restore(
        admin: u64,
        token: u64,
        session: Option<Competition>,
        paid: &Vec<u64>,
        rows: Vec<PlayerScore>,
    ) -> (r: Option<SnakeGameCompetition>)
        ensures
            r is Some <==> valid(assembled(admin, token, session, paid@, rows@)),
            r matches Some(c) ==> c.wf() && c@ == assembled(admin, token, session, paid@, rows@),
    {
        let ghost parts = assembled(admin, token, session, paid@, rows@);
        let count: usize = rows.len();
        match session {
            None => {
                if paid.len() != 0 || count != 0 {
                    proof {
                        if paid@.len() != 0 {
                            assert(paid@.contains(paid@[0]));
                            assert(flags(paid@).dom().contains(paid@[0]));
                        }
                    }
                    return None;
                }
            },
            Some(c) => {
                if c.entry_fee <= 0 || c.prize_pool < 0 || (c.status != STATUS_ACTIVE && c.status
                    != STATUS_CLAIMED) || c.total_players as usize != count {
                    return None;
                }
                if c.prize_pool % c.entry_fee != 0 {
                    return None;
                }
            },
        }
        let board: Leaderboard = match Leaderboard::restore(rows) {
            None => {
                return None;
            },
            Some(b) => b,
        };
        let mut marks: BTreeMap<u64, bool> = BTreeMap::new();
        let mut i: usize = 0;
        while i < paid.len()
            invariant
                i <= paid@.len(),
                marks@ == flags(paid@.take(i as int)),
            decreases paid@.len() - i,
        {
            marks.insert(paid[i], true);
            proof {
                let before = paid@.take(i as int);
                let after = paid@.take(i + 1);
                assert(after =~= before.push(paid@[i as int]));
                assert forall|k: u64| after.contains(k) <==> before.contains(k) || k == paid@[i as int] by {
                    if before.contains(k) {
                        let w = choose|w: int| 0 <= w < before.len() && before[w] == k;
                        assert(after[w] == k);
                    }
                    if k == paid@[i as int] {
                        assert(after[i as int] == k);
                    }
                }
                assert(marks@ =~= flags(after));
            }
            i = i + 1;
        }
        assert(paid@.take(paid@.len() as int) =~= paid@);
        assert(marks@.dom().finite());
        proof {
            if session is None {
                assert(flags(paid@) =~= Map::<u64, bool>::empty());
            }
        }
        let c = SnakeGameCompetition {
            admin: Some(admin),
            token: Some(token),
            session,
            paid: marks,
            board,
        };
        assert(c@ =~= parts);
        Some(c)
    }

    /// Names the admin and the asset, once. `authorized` says whether the
    /// host has proven that the caller is `admin`.
    pub fn initialize(&mut self, admin: u64, token: u64, authorized: bool) -> (r: Result<
        (),
        Error,
    >)
        requires
            old(self).wf(),
        ensures
            final(self).wf(),
            match r {
                Ok(()) => initialize_refusal(old(self)@, authorized) is None && final(self)@ == (
                ContestView { admin: Some(admin), token: Some(token), ..old(self)@ }),
                Err(e) => initialize_refusal(old(self)@, authorized) == Some(e) && final(self)@
                    == old(self)@,
            },
    {
        if !authorized {
            return Err(Error::Unauthorized);
        }
        if self.admin.is_some() {
            return Err(Error::AlreadyInitialized);
        }
        self.admin = Some(admin);
        self.token = Some(token);
        assert(self@ =~= (ContestView { admin: Some(admin), token: Some(token), ..old(self)@ }));
        Ok(())
    }

    /// Tells whether the caller may act as admin.
    fn check_admin(&self, admin: u64, authorized: bool) -> (r: Result<(), Error>)
        ensures
            match r {
                Ok(()) => admin_refusal(self@, admin, authorized) is None,
                Err(e) => admin_refusal(self@, admin, authorized) == Some(e),
            },
    {
        if !authorized {
            return Err(Error::Unauthorized);
        }
        match self.admin {
            None => Err(Error::NotInitialized),
            Some(stored) => if stored != admin {
                Err(Error::Unauthorized)
            } else {
                Ok(())
            },
        }
    }

    /// Starts a new round. The round before must have been claimed; that
    /// its deadline has passed is not enough.
    pub fn create_competition(
        &mut self,
        admin: u64,
        session_id: u32,
        deadline: u64,
        entry_fee: i128,
        now: u64,
        authorized: bool,
    ) -> (r: Result<(), Error>)
        requires
            old(self).wf(),
        ensures
            final(self).wf(),
            match r {
                Ok(()) => create_refusal(old(self)@, admin, deadline, entry_fee, now, authorized)
                    is None && final(self)@ == after_create(
                    old(self)@,
                    session_id,
                    deadline,
                    entry_fee,
                ),
                Err(e) => create_refusal(old(self)@, admin, deadline, entry_fee, now, authorized)
                    == Some(e) && final(self)@ == old(self)@,
            },
    {
        match self.check_admin(admin, authorized) {
            Err(e) => {
                return Err(e);
            },
            Ok(()) => {},
        }
        match self.session {
            Some(c) => {
                if may_settle(c.status) {
                    return Err(Error::CompetitionAlreadyActive);
                }
            },
            None => {},
        }
        if deadline <= now {
            return Err(Error::InvalidDeadline);
        }
        if entry_fee <= 0 {
            return Err(Error::InvalidFee);
        }
        self.session = Some(
            Competition {
                entry_fee,
                session_id,
                deadline,
                status: STATUS_ACTIVE,
                prize_pool: 0,
                total_players: 0,
            },
        );
        self.board = Leaderboard::new();
        self.paid = BTreeMap::new();
        assert(self@ =~= after_create(old(self)@, session_id, deadline, entry_fee));
        Ok(())
    }

    /// Tells whether the round takes entries and scores at `now`, and hands
    /// the round out if it does.
    fn check_round(&self, now: u64, authorized: bool) -> (r: Result<Competition, Error>)
        ensures
            match r {
                Ok(c) => round_refusal(self@, now, authorized) is None && self@.session == Some(c),
                Err(e) => round_refusal(self@, now, authorized) == Some(e),
            },
    {
        if !authorized {
            return Err(Error::Unauthorized);
        }
        match self.session {
            None => Err(Error::CompetitionNotActive),
            Some(c) => if !may_settle(c.status) {
                Err(Error::CompetitionNotActive)
            } else {
                match gate(now, c.deadline, c.status) {
                    Gate::Closed => Err(Error::CompetitionEnded),
                    Gate::Open => Ok(c),
                }
            },
        }
    }

    /// Whether `player` has paid for a game and not yet submitted its
    /// score.
    pub fn has_paid(&self, player: u64) -> (r: bool)
        ensures
            r == paid_up(self@, player),
    {
        match self.paid.get(&player) {
            Some(flag) => *flag,
            None => false,
        }
    }

    /// Charges `player` the entry fee for one game. On success the pool has
    /// grown by the fee, the player is marked as paid, and the result is the
    /// transfer into custody that the host has to make.
    pub fn pay_entry_fee(&mut self, player: u64, now: u64, authorized: bool) -> (r: Result<
        Transfer,
        Error,
    >)
        requires
            old(self).wf(),
            pay_refusal(old(self)@, player, now, authorized) is None ==> old(self)@.session.unwrap().prize_pool + old(self)@.session.unwrap().entry_fee <= i128::MAX,
        ensures
            final(self).wf(),
            match r {
                Ok(t) => pay_refusal(old(self)@, player, now, authorized) is None && final(self)@
                    == after_pay(old(self)@, player) && t == deposit(
                    player,
                    old(self)@.session.unwrap().entry_fee,
                ),
                Err(e) => pay_refusal(old(self)@, player, now, authorized) == Some(e) && final(self)@ == old(self)@,
            },
    {
        let c: Competition = match self.check_round(now, authorized) {
            Err(e) => {
                return Err(e);
            },
            Ok(c) => c,
        };
        if self.has_paid(player) {
            return Err(Error::AlreadyPaid);
        }
        proof {
            lemma_fee_keeps_pool_whole(c.prize_pool as int, c.entry_fee as int);
        }
        self.session = Some(
            Competition {
                entry_fee: c.entry_fee,
                session_id: c.session_id,
                deadline: c.deadline,
                status: c.status,
                prize_pool: c.prize_pool + c.entry_fee,
                total_players: c.total_players,
            },
        );
        self.paid.insert(player, true);
        assert(self@ =~= after_pay(old(self)@, player));
        Ok(Transfer { from: Party::Participant(player), to: Party::Custody, amount: c.entry_fee })
    }

    /// Whether the board can count one more game with `score` for `player`
    /// without a counter running over. `submit_score` asks for it.
    pub fn score_fits(&self, player: u64, score: u64) -> (r: bool)
        requires
            self.wf(),
        ensures
            r == can_count(self@.leaderboard, player, score),
    {
        self.board.can_record(player, score)
    }

    /// Takes the score of the game that `player` has paid for, counts it on
    /// the leaderboard and ranks the board anew.
    pub fn submit_score(&mut self, player: u64, score: u64, now: u64, authorized: bool) -> (r:
        Result<(), Error>)
        requires
            old(self).wf(),
            submit_refusal(old(self)@, player, now, authorized) is None ==> can_count(
                old(self)@.leaderboard,
                player,
                score,
            ),
        ensures
            final(self).wf(),
            match r {
                Ok(()) => submit_refusal(old(self)@, player, now, authorized) is None && submitted(
                    old(self)@,
                    player,
                    score,
                    final(self)@,
                ),
                Err(e) => submit_refusal(old(self)@, player, now, authorized) == Some(e) && final(self)@ == old(self)@,
            },
    {
        let c: Competition = match self.check_round(now, authorized) {
            Err(e) => {
                return Err(e);
            },
            Ok(c) => c,
        };
        if !self.has_paid(player) {
            return Err(Error::PaymentRequired);
        }
        self.paid.insert(player, false);
        let is_new: bool = self.board.record(player, score);
        let total_players: u32 = if is_new {
            c.total_players + 1
        } else {
            c.total_players
        };
        self.session = Some(
            Competition {
                entry_fee: c.entry_fee,
                session_id: c.session_id,
                deadline: c.deadline,
                status: c.status,
                prize_pool: c.prize_pool,
                total_players,
            },
        );
        proof {
            crate::leaderboard::lemma_upserted_len(old(self)@.leaderboard, player, score);
        }
        Ok(())
    }

    /// Settles the round: works out the admin's cut and the prizes of the
    /// first three ranks, and marks the round as claimed. The result is the
    /// list of transfers out of custody that the host has to make.
    pub fn end_competition(&mut self, admin: u64, authorized: bool) -> (r: Result<
        Vec<Transfer>,
        Error,
    >)
        requires
            old(self).wf(),
        ensures
            final(self).wf(),
            match r {
                Ok(ts) => end_refusal(old(self)@, admin, authorized) is None && final(self)@
                    == after_end(old(self)@) && ts@ == payouts(old(self)@) && 0 <= paid_out(
                    ts@,
                    ts@.len() as int,
                ) <= old(self)@.session.unwrap().prize_pool,
                Err(e) => end_refusal(old(self)@, admin, authorized) == Some(e) && final(self)@
                    == old(self)@,
            },
    {
        match self.check_admin(admin, authorized) {
            Err(e) => {
                return Err(e);
            },
            Ok(()) => {},
        }
        let c: Competition = match self.session {
            None => {
                return Err(Error::CompetitionNotActive);
            },
            Some(c) => c,
        };
        if !may_settle(c.status) {
            return Err(Error::CompetitionNotActive);
        }
        let mut transfers: Vec<Transfer> = Vec::new();
        let rows: &Vec<PlayerScore> = self.board.rows();
        if c.prize_pool > 0 && rows.len() > 0 {
            let ranks: usize = if rows.len() < PAID_RANKS {
                rows.len()
            } else {
                PAID_RANKS
            };
            let mut percents: Vec<u32> = Vec::new();
            percents.push(50);
            if ranks >= 2 {
                percents.push(30);
            }
            if ranks >= 3 {
                percents.push(20);
            }
            assert(percents@ =~= tiers(ranks as int));
            let parts: Split = split(c.prize_pool, ADMIN_FEE_PERCENT, &percents);
            transfers.push(
                Transfer {
                    from: Party::Custody,
                    to: Party::Participant(admin),
                    amount: parts.admin_fee,
                },
            );
            let ghost rest = remainder(c.prize_pool as int, ADMIN_FEE_PERCENT as int);
            let mut i: usize = 0;
            while i < ranks
                invariant
                    i <= ranks,
                    ranks == paid_ranks(rows@),
                    ranks == parts.shares@.len(),
                    transfers@.len() == i + 1,
                    transfers@[0] == payout(admin, parts.admin_fee),
                    forall|k: int|
                        0 <= k < ranks ==> parts.shares@[k] == #[trigger] crate::splitter::tier_shares(
                            rest,
                            tiers(ranks as int),
                        )[k],
                    forall|k: int|
                        0 <= k < i ==> #[trigger] transfers@[k + 1] == payout(
                            rows@[k].player,
                            parts.shares@[k],
                        ),
                decreases ranks - i,
            {
                transfers.push(
                    Transfer {
                        from: Party::Custody,
                        to: Party::Participant(rows[i].player),
                        amount: parts.shares[i],
                    },
                );
                i = i + 1;
            }
            proof {
                lemma_payouts_within_pool(old(self)@);
                assert forall|k: int| 0 <= k < ranks implies parts.shares@[k] == share(
                    rest,
                    tier(k) as int,
                ) by {
                    assert(parts.shares@[k] == crate::splitter::tier_shares(
                        rest,
                        tiers(ranks as int),
                    )[k]);
                }
                assert(transfers@ =~= payouts(old(self)@));
            }
        }
        proof {
            lemma_payouts_within_pool(old(self)@);
        }
        self.session = Some(
            Competition {
                entry_fee: c.entry_fee,
                session_id: c.session_id,
                deadline: c.deadline,
                status: STATUS_CLAIMED,
                prize_pool: c.prize_pool,
                total_players: c.total_players,
            },
        );
        assert(self@ =~= after_end(old(self)@));
        Ok(transfers)
    }

    /// The round: the open one, or the one claimed last; none before the
    /// first round was created.
    pub fn get_competition(&self) -> (r: Option<Competition>)
        ensures
            r == self@.session,
    {
        self.session
    }

    /// The board, best first; empty before the first round.
    pub fn get_leaderboard(&self) -> (r: Vec<PlayerScore>)
        ensures
            r@ == self@.leaderboard,
    {
        let rows: &Vec<PlayerScore> = self.board.rows();
        let mut out: Vec<PlayerScore> = Vec::new();
        let mut i: usize = 0;
        while i < rows.len()
            invariant
                i <= rows@.len(),
                out@ == rows@.take(i as int),
            decreases rows@.len() - i,
        {
            out.push(rows[i]);
            assert(rows@.take(i + 1) =~= rows@.take(i as int).push(rows@[i as int]));
            i = i + 1;
        }
        assert(rows@.take(rows@.len() as int) =~= rows@);
        out
    }

    /// The line of `player`; none for a player who has not submitted a
    /// score in this round.
    pub fn get_player_stats(&self, player: u64) -> (r: Option<PlayerScore>)
        requires
            self.wf(),
        ensures
            r == (if has_player(self@.leaderboard, player) {
                Some(self@.leaderboard[index_of(self@.leaderboard, player)])
            } else {
                None
            }),
    {
        self.board.find(player)
    }

    /// The entry fee of the round; zero before the first round.
    pub fn get_entry_fee(&self) -> (r: i128)
        ensures
            r == (match self@.session {
                Some(c) => c.entry_fee,
                None => 0,
            }),
    {
        match self.session {
            Some(c) => c.entry_fee,
            None => 0,
        }
    }

    /// The admin, once one is named.
    pub fn get_admin(&self) -> (r: Option<u64>)
        ensures
            r == self@.admin,
    {
        self.admin
    }

    /// The asset that fees and prizes are paid in, once it is named.
    pub fn get_token(&self) -> (r: Option<u64>)
        ensures
            r == self@.token,
    {
        self.token
    }
}

/// Settlement hands out at most the pool: the admin's cut and the prizes
/// together are never negative and never more than the round has
/// collected. They fall short of it by what rounding down leaves over and
/// by the tiers of ranks that nobody holds.
pub proof fn lemma_payouts_within_pool(v: ContestView)
    requires
        valid(v),
        v.session is Some,
    ensures
        0 <= paid_out(payouts(v), payouts(v).len() as int) <= v.session.unwrap().prize_pool,
{
    let pool = v.session.unwrap().prize_pool as int;
    let ts = payouts(v);
    if pool > 0 && v.leaderboard.len() > 0 {
        let n = paid_ranks(v.leaderboard);
        let fee = share(pool, ADMIN_FEE_PERCENT as int);
        let rest = remainder(pool, ADMIN_FEE_PERCENT as int);
        let shares = crate::splitter::tier_shares(rest, tiers(n));
        let pcts = crate::splitter::percents(tiers(n));
        assert(sum_to(pcts, n) <= 100) by {
            reveal_with_fuel(sum_to, 4);
        }
        crate::splitter::lemma_split_within_pool(pool, ADMIN_FEE_PERCENT as int, tiers(n));
        assert forall|k: int| 0 <= k < n implies 0 <= #[trigger] shares[k] <= rest by {
            crate::splitter::lemma_share_bounds(rest, tier(k) as int);
        }
        lemma_paid_out_is_sum(ts, shares, n);
    }
}

/// Before `initialize`, and before the first round, every query gives its
/// default: no round, an empty board, nobody has paid.
pub proof fn lemma_defaults_without_round(v: ContestView, player: u64)
    requires
        valid(v),
        v.session is None,
    ensures
        v.leaderboard.len() == 0,
        !has_player(v.leaderboard, player),
        !paid_up(v, player),
        !active(v),
        v.admin is None ==> v == blank(),
{
}

/// A round is claimed once and stays claimed: after settlement the round
/// takes no entry, no score and no second settlement, whoever asks and
/// whenever.
pub proof fn lemma_claimed_stays_claimed(
    v: ContestView,
    admin: u64,
    player: u64,
    now: u64,
    authorized: bool,
)
    requires
        valid(v),
        active(v),
    ensures
        !active(after_end(v)),
        after_end(v).session.unwrap().status == STATUS_CLAIMED,
        end_refusal(after_end(v), admin, authorized) is Some,
        pay_refusal(after_end(v), player, now, authorized) is Some,
        submit_refusal(after_end(v), player, now, authorized) is Some,
        end_refusal(v, admin, authorized) is None ==> end_refusal(after_end(v), admin, authorized)
            == Some(Error::CompetitionNotActive),
{
}

/// Paying and playing alternate: once a player has paid, a second payment
/// is refused until the score is in; and once the score is in, a second
/// score is refused until the player has paid again.
pub proof fn lemma_pay_and_play_alternate(
    v: ContestView,
    player: u64,
    score: u64,
    now: u64,
    after: ContestView,
)
    requires
        valid(v),
        round_refusal(v, now, true) is None,
    ensures
        pay_refusal(v, player, now, true) is None ==> pay_refusal(
            after_pay(v, player),
            player,
            now,
            true,
        ) == Some(Error::AlreadyPaid),
        submit_refusal(v, player, now, true) is None && submitted(v, player, score, after)
            ==> submit_refusal(after, player, now, true) == Some(Error::PaymentRequired),
{
}

/// A pool that is a whole number of fees is one again with one fee more.
pub proof fn lemma_fee_keeps_pool_whole(pool: int, fee: int)
    requires
        0 <= pool,
        0 < fee,
        pool % fee == 0,
    ensures
        (pool + fee) % fee == 0,
        (pool + fee) / fee == pool / fee + 1,
{
    vstd::arithmetic::div_mod::lemma_fundamental_div_mod(pool, fee);
    let k = pool / fee;
    assert(pool + fee == (k + 1) * fee) by (nonlinear_arith)
        requires
            pool == fee * k,
    ;
    vstd::arithmetic::div_mod::lemma_fundamental_div_mod_converse(pool + fee, fee, k + 1, 0);
}

/// The sum over the transfers, the admin's cut being the first, is the cut
/// plus the sum of the shares.
proof fn lemma_paid_out_is_sum(ts: Seq<Transfer>, shares: Seq<int>, n: int)
    requires
        0 <= n <= shares.len(),
        ts.len() >= n + 1,
        forall|k: int| 0 <= k < n ==> (#[trigger] ts[k + 1]).amount == shares[k],
    ensures
        paid_out(ts, n + 1) == ts[0].amount + sum_to(shares, n),
    decreases n,
{
    if n > 0 {
        lemma_paid_out_is_sum(ts, shares, n - 1);
        assert(ts[(n - 1) + 1].amount == shares[n - 1]);
    } else {
        reveal_with_fuel(paid_out, 2);
    }
}

} // verus!
