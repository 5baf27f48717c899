//! The campaign: one round of funding towards a goal, open until a deadline.
//!
//! Donations are taken while the window is open. Once it has closed with the
//! goal missed, each donor can have the whole donation back, once. There is
//! no stored "ended" flag: whether the campaign has ended is read off the
//! time that the host hands in with each call.
//!
//! Every operation checks all it has to check before it changes anything, so
//! a refused call leaves the campaign as it was.

use vstd::prelude::*;
use vstd::arithmetic::div_mod::*;
use crate::error::Error;
use crate::gate::{gate, window, Gate, STATUS_ACTIVE};
use crate::ledger::{balance_of, non_negative, sum_of, Ledger};
use crate::transfer::{deposit, payout, Party, Transfer};

verus! {

/// A campaign as the contracts speak of it.
#[verifier::ext_equal]
pub struct CampaignView {
    pub owner: u64,
    pub goal: i128,
    pub deadline: u64,
    pub token: u64,
    pub total_raised: i128,
    pub donations: Map<u64, i128>,
    pub initialized: bool,
}

/// A campaign on which `initialize` has not run yet.
pub open spec fn blank() -> CampaignView {
    CampaignView {
        owner: 0,
        goal: 0,
        deadline: 0,
        token: 0,
        total_raised: 0,
        donations: Map::empty(),
        initialized: false,
    }
}

/// What holds of a campaign at every point: no donation is negative, the
/// total raised is the sum of the donations that were not refunded, and
/// before `initialize` nothing is set.
pub open spec fn valid(v: CampaignView) -> bool {
    &&& v.donations.dom().finite()
    &&& non_negative(v.donations)
    &&& v.total_raised == sum_of(v.donations)
    &&& !v.initialized ==> v == blank()
}

/// Why `initialize` refuses, if it does.
pub open spec fn initialize_refusal(v: CampaignView, authorized: bool) -> Option<Error> {
    if !authorized {
        Some(Error::Unauthorized)
    } else if v.initialized {
        Some(Error::AlreadyInitialized)
    } else {
        None
    }
}

/// Why `donate` refuses, if it does.
pub open spec fn donate_refusal(v: CampaignView, amount: i128, now: u64, authorized: bool) -> Option<
    Error,
> {
    if !authorized {
        Some(Error::Unauthorized)
    } else if !v.initialized {
        Some(Error::NotInitialized)
    } else if window(now, v.deadline) == Gate::Closed {
        Some(Error::CampaignEnded)
    } else if amount <= 0 {
        Some(Error::InvalidAmount)
    } else {
        None
    }
}

/// The campaign once `donor` has given `amount`.
pub open spec fn after_donate(v: CampaignView, donor: u64, amount: i128) -> CampaignView {
    CampaignView {
        total_raised: (v.total_raised + amount) as i128,
        donations: v.donations.insert(donor, (balance_of(v.donations, donor) + amount) as i128),
        ..v
    }
}

/// Why `refund` refuses, if it does.
pub open spec fn refund_refusal(v: CampaignView, donor: u64, now: u64, authorized: bool) -> Option<
    Error,
> {
    if !authorized {
        Some(Error::Unauthorized)
    } else if !v.initialized {
        Some(Error::NotInitialized)
    } else if window(now, v.deadline) == Gate::Open {
        Some(Error::CampaignNotEnded)
    } else if v.total_raised >= v.goal {
        Some(Error::GoalReached)
    } else if balance_of(v.donations, donor) <= 0 {
        Some(Error::NoDonationFound)
    } else {
        None
    }
}

/// The campaign once `donor` has been refunded in full.
pub open spec fn after_refund(v: CampaignView, donor: u64) -> CampaignView {
    CampaignView {
        total_raised: (v.total_raised - balance_of(v.donations, donor)) as i128,
        donations: v.donations.insert(donor, 0i128),
        ..v
    }
}

/// Whether the goal is met. Before `initialize` it is not.
pub open spec fn goal_reached(v: CampaignView) -> bool {
    v.initialized && v.total_raised >= v.goal
}

/// Whether the deadline has passed at `now`. Before `initialize` it has not.
pub open spec fn ended(v: CampaignView, now: u64) -> bool {
    v.initialized && window(now, v.deadline) == Gate::Closed
}

/// The total raised in hundredths of the goal, rounded towards zero; zero
/// where the goal is zero. It is not capped at a hundred.
pub open spec fn progress(v: CampaignView) -> int {
    if v.goal == 0 {
        0
    } else if v.goal > 0 {
        (v.total_raised * 100) / (v.goal as int)
    } else {
        -((v.total_raised * 100) / (-v.goal))
    }
}

/// `(part * 100) / whole`, found without forming `part * 100`: the whole
/// multiples of `whole` first, then the hundredths that the rest makes up,
/// counted one by one.
fn hundredths(part: u128, whole: u128) -> (r: u128)
    requires
        0 < whole <= 0x8000_0000_0000_0000_0000_0000_0000_0000u128,
        (part * 100) / (whole as int) <= 0x8000_0000_0000_0000_0000_0000_0000_0000u128,
    ensures
        r == (part * 100) / (whole as int),
{
    let q: u128 = part / whole;
    let rest: u128 = part % whole;
    let mut count: u128 = 0;
    let mut carry: u128 = 0;
    let mut k: u32 = 0;
    while k < 100
        invariant
            0 < whole <= 0x8000_0000_0000_0000_0000_0000_0000_0000u128,
            rest < whole,
            k <= 100,
            count <= k,
            carry < whole,
            count * whole + carry == k * rest,
        decreases 100 - k,
    {
        proof {
            assert((count + 1) * whole == count * whole + whole) by (nonlinear_arith);
            assert((k + 1) * rest == k * rest + rest) by (nonlinear_arith);
        }
        carry = carry + rest;
        if carry >= whole {
            carry = carry - whole;
            count = count + 1;
        }
        k = k + 1;
    }
    proof {
        lemma_fundamental_div_mod(part as int, whole as int);
        assert(part * 100 == (q * 100 + count) * whole + carry) by (nonlinear_arith)
            requires
                part == whole * q + rest,
                count * whole + carry == 100 * rest,
        ;
        lemma_fundamental_div_mod_converse(
            part * 100,
            whole as int,
            q * 100 + count,
            carry as int,
        );
    }
    q * 100 + count
}

/// A campaign right after `initialize`.
pub open spec fn opened(owner: u64, goal: i128, deadline: u64, token: u64) -> CampaignView {
    CampaignView {
        owner,
        goal,
        deadline,
        token,
        total_raised: 0,
        donations: Map::empty(),
        initialized: true,
    }
}

/// The sum of the first `n` stored amounts.
pub open spec fn stored_sum(entries: Seq<(u64, i128)>, n: int) -> int
    decreases n,
{
    if n <= 0 {
        0
    } else {
        stored_sum(entries, n - 1) + entries[n - 1].1
    }
}

/// Whether stored donations can be taken back in: none is negative, and
/// together they fit the total.
pub open spec fn restorable(entries: Seq<(u64, i128)>) -> bool {
    &&& forall|i: int| 0 <= i < entries.len() ==> (#[trigger] entries[i]).1 >= 0
    &&& stored_sum(entries, entries.len() as int) <= i128::MAX
}

/// The campaign `start` with the stored donations credited one after the
/// other. An amount of zero, left behind by a refund, credits nothing.
pub open spec fn restored(start: CampaignView, entries: Seq<(u64, i128)>) -> CampaignView
    decreases entries.len(),
{
    if entries.len() == 0 {
        start
    } else {
        let v = restored(start, entries.drop_last());
        if entries.last().1 > 0 {
            after_donate(v, entries.last().0, entries.last().1)
        } else {
            v
        }
    }
}

/// Where no stored amount is negative, the sum of the first few is at most
/// the sum of all.
proof fn lemma_stored_sum_grows(entries: Seq<(u64, i128)>, n: int, m: int)
    requires
        0 <= n <= m <= entries.len(),
        forall|i: int| 0 <= i < entries.len() ==> (#[trigger] entries[i]).1 >= 0,
    ensures
        0 <= stored_sum(entries, n) <= stored_sum(entries, m),
    decreases m,
{
    if n < m {
        lemma_stored_sum_grows(entries, n, m - 1);
        assert(entries[m - 1].1 >= 0);
    } else if n > 0 {
        lemma_stored_sum_grows(entries, n - 1, n - 1);
        assert(entries[n - 1].1 >= 0);
    }
}

/// The state of one campaign: its settings, and the ledger of donations.
pub struct CrowdfundingContract {
    owner: u64,
    goal: i128,
    deadline: u64,
    token: u64,
    ledger: Ledger,
    initialized: bool,
}

impl View for CrowdfundingContract {
    type V = CampaignView;

    closed spec fn view(&self) -> CampaignView {
        CampaignView {
            owner: self.owner,
            goal: self.goal,
            deadline: self.deadline,
            token: self.token,
            total_raised: self.ledger.spec_total(),
            donations: self.ledger@,
            initialized: self.initialized,
        }
    }
}

impl CrowdfundingContract {
    pub open spec fn wf(&self) -> bool {
        valid(self@)
    }

    /// A campaign that waits for `initialize`.
    pub fn new() -> (c: CrowdfundingContract)
        ensures
            c.wf(),
            c@ == blank(),
    {
        let c = CrowdfundingContract {
            owner: 0,
            goal: 0,
            deadline: 0,
            token: 0,
            ledger: Ledger::new(),
            initialized: false,
        };
        assert(c@ =~= blank());
        c
    }

    /// Puts an initialized campaign together again from what was stored
    /// of it: its settings and what each donor holds. Gives nothing where
    /// an amount is negative or the amounts together exceed what the total
    /// can hold.
    pub fn restore(
        owner: u64,
        goal: i128,
        deadline: u64,
        token: u64,
        donations: &Vec<(u64, i128)>,
    ) -> (r: Option<CrowdfundingContract>)
        ensures
            r is Some <==> restorable(donations@),
            r matches Some(c) ==> c.wf() && c@ == restored(
                opened(owner, goal, deadline, token),
                donations@,
            ),
    {
        let ghost start = opened(owner, goal, deadline, token);
        let mut c = CrowdfundingContract {
            owner,
            goal,
            deadline,
            token,
            ledger: Ledger::new(),
            initialized: true,
        };
        assert(c@ =~= start);
        let mut i: usize = 0;
        while i < donations.len()
            invariant
                i <= donations@.len(),
                c.wf(),
                c@.initialized,
                c@ == restored(start, donations@.take(i as int)),
                c@.total_raised == stored_sum(donations@, i as int),
                forall|k: int| 0 <= k < i ==> (#[trigger] donations@[k]).1 >= 0,
            decreases donations@.len() - i,
        {
            let (donor, amount) = donations[i];
            let ghost before = c@;
            proof {
                assert(donations@.take(i + 1).drop_last() =~= donations@.take(i as int));
                assert(donations@.take(i + 1).last() == donations@[i as int]);
                crate::ledger::lemma_balance_within_sum(c@.donations, donor);
            }
            if amount < 0 {
                return None;
            }
            if amount > i128::MAX - c.ledger.total() {
                proof {
                    if restorable(donations@) {
                        lemma_stored_sum_grows(
                            donations@,
                            i + 1,
                            donations@.len() as int,
                        );
                    }
                }
                return None;
            }
            if amount > 0 {
                let _ = c.ledger.credit(donor, amount);
                assert(c@ =~= after_donate(before, donor, amount));
            }
            i = i + 1;
        }
        assert(donations@.take(donations@.len() as int) =~= donations@);
        Some(c)
    }

    /// The sum of all donations that were not refunded; zero before
    /// `initialize`.
    pub fn get_total_raised(&self) -> (r: i128)
        requires
            self.wf(),
        ensures
            r == self@.total_raised,
            !self@.initialized ==> r == 0,
    {
        self.ledger.total()
    }

    /// What `donor` has given and not got back; zero for someone who never
    /// gave, and zero before `initialize`.
    pub fn get_donation(&self, donor: u64) -> (r: i128)
        requires
            self.wf(),
        ensures
            r == balance_of(self@.donations, donor),
            !self@.initialized ==> r == 0,
    {
        self.ledger.read(donor)
    }

    pub fn get_is_already_init(&self) -> (r: bool)
        ensures
            r == self@.initialized,
    {
        self.initialized
    }

    /// The goal; zero before `initialize`.
    pub fn get_goal(&self) -> (r: i128)
        requires
            self.wf(),
        ensures
            r == self@.goal,
            !self@.initialized ==> r == 0,
    {
        self.goal
    }

    /// The deadline; zero before `initialize`.
    pub fn get_deadline(&self) -> (r: u64)
        requires
            self.wf(),
        ensures
            r == self@.deadline,
            !self@.initialized ==> r == 0,
    {
        self.deadline
    }

    /// Who set the campaign up, once someone has.
    pub fn get_owner(&self) -> (r: Option<u64>)
        ensures
            r == (if self@.initialized {
                Some(self@.owner)
            } else {
                None
            }),
    {
        if self.initialized {
            Some(self.owner)
        } else {
            None
        }
    }

    /// The asset the campaign collects, once it is set up.
    pub fn get_token(&self) -> (r: Option<u64>)
        ensures
            r == (if self@.initialized {
                Some(self@.token)
            } else {
                None
            }),
    {
        if self.initialized {
            Some(self.token)
        } else {
            None
        }
    }

    pub fn is_goal_reached(&self) -> (r: bool)
        ensures
            r == goal_reached(self@),
            !self@.initialized ==> !r,
    {
        self.initialized && self.ledger.total() >= self.goal
    }

    /// Whether donations are closed at `now`. At the deadline itself they
    /// are still open.
    pub fn is_ended(&self, now: u64) -> (r: bool)
        ensures
            r == ended(self@, now),
            !self@.initialized ==> !r,
    {
        match gate(now, self.deadline, STATUS_ACTIVE) {
            Gate::Closed => self.initialized,
            Gate::Open => false,
        }
    }

    /// The total raised in hundredths of the goal.
    pub fn get_progress_percentage(&self) -> (r: i128)
        requires
            self.wf(),
            i128::MIN <= progress(self@) <= i128::MAX,
        ensures
            r == progress(self@),
            !self@.initialized ==> r == 0,
    {
        let raised: i128 = self.ledger.total();
        proof {
            crate::ledger::lemma_balance_within_sum(self@.donations, 0);
        }
        if self.goal == 0 {
            0
        } else if self.goal > 0 {
            hundredths(raised as u128, self.goal as u128) as i128
        } else {
            let size: u128 = if self.goal == i128::MIN {
                0x8000_0000_0000_0000_0000_0000_0000_0000u128
            } else {
                (-self.goal) as u128
            };
            let h: u128 = hundredths(raised as u128, size);
            if h == 0x8000_0000_0000_0000_0000_0000_0000_0000u128 {
                i128::MIN
            } else {
                -(h as i128)
            }
        }
    }

    /// Sets the campaign up, once. `authorized` says whether the host has
    /// proven that the caller is `owner`.
    pub fn initialize(
        &mut self,
        owner: u64,
        goal: i128,
        deadline: u64,
        token: u64,
        authorized: bool,
    ) -> (r: Result<(), Error>)
        requires
            old(self).wf(),
        ensures
            final(self).wf(),
            match r {
                Ok(()) => initialize_refusal(old(self)@, authorized) is None && final(self)@ == (
                CampaignView {
                    owner,
                    goal,
                    deadline,
                    token,
                    total_raised: 0,
                    donations: Map::empty(),
                    initialized: true,
                }),
                Err(e) => initialize_refusal(old(self)@, authorized) == Some(e) && final(self)@
                    == old(self)@,
            },
    {
        if !authorized {
            return Err(Error::Unauthorized);
        }
        if self.initialized {
            return Err(Error::AlreadyInitialized);
        }
        self.owner = owner;
        self.goal = goal;
        self.deadline = deadline;
        self.token = token;
        self.initialized = true;
        assert(self@ =~= (CampaignView {
            owner,
            goal,
            deadline,
            token,
            total_raised: 0,
            donations: Map::empty(),
            initialized: true,
        }));
        Ok(())
    }

    /// Takes a donation of `amount` from `donor` at time `now`. On success
    /// the donor's balance and the total raised have grown by `amount`, and
    /// the result is the transfer into custody that the host has to make.
    pub fn donate(&mut self, donor: u64, amount: i128, now: u64, authorized: bool) -> (r: Result<
        Transfer,
        Error,
    >)
        requires
            old(self).wf(),
            donate_refusal(old(self)@, amount, now, authorized) is None ==> old(self)@.total_raised
                + amount <= i128::MAX,
        ensures
            final(self).wf(),
            match r {
                Ok(t) => donate_refusal(old(self)@, amount, now, authorized) is None && final(self)@ == after_donate(old(self)@, donor, amount) && t == deposit(donor, amount),
                Err(e) => donate_refusal(old(self)@, amount, now, authorized) == Some(e) && final(self)@ == old(self)@,
            },
    {
        if !authorized {
            return Err(Error::Unauthorized);
        }
        if !self.initialized {
            return Err(Error::NotInitialized);
        }
        match gate(now, self.deadline, STATUS_ACTIVE) {
            Gate::Closed => {
                return Err(Error::CampaignEnded);
            },
            Gate::Open => {},
        }
        match self.ledger.credit(donor, amount) {
            Err(e) => Err(e),
            Ok(()) => {
                assert(self@ =~= after_donate(old(self)@, donor, amount));
                Ok(Transfer { from: Party::Participant(donor), to: Party::Custody, amount })
            },
        }
    }

    /// Gives `donor` the whole donation back, once the deadline has passed
    /// with the goal missed. On success the donor's balance is zero, the
    /// total raised has shrunk by it, and the result is the transfer out of
    /// custody that the host has to make.
    pub fn refund(&mut self, donor: u64, now: u64, authorized: bool) -> (r: Result<Transfer, Error>)
        requires
            old(self).wf(),
        ensures
            final(self).wf(),
            match r {
                Ok(t) => refund_refusal(old(self)@, donor, now, authorized) is None && final(self)@ == after_refund(old(self)@, donor) && t == payout(
                    donor,
                    balance_of(old(self)@.donations, donor) as i128,
                ),
                Err(e) => refund_refusal(old(self)@, donor, now, authorized) == Some(e) && final(self)@ == old(self)@,
            },
    {
        if !authorized {
            return Err(Error::Unauthorized);
        }
        if !self.initialized {
            return Err(Error::NotInitialized);
        }
        match gate(now, self.deadline, STATUS_ACTIVE) {
            Gate::Open => {
                return Err(Error::CampaignNotEnded);
            },
            Gate::Closed => {},
        }
        if self.ledger.total() >= self.goal {
            return Err(Error::GoalReached);
        }
        match self.ledger.debit_to_zero(donor) {
            Err(_) => Err(Error::NoDonationFound),
            Ok(amount) => {
                assert(self@ =~= after_refund(old(self)@, donor));
                Ok(Transfer { from: Party::Custody, to: Party::Participant(donor), amount })
            },
        }
    }
}

/// One call that changes a campaign.
pub enum Call {
    Donate { donor: u64, amount: i128, now: u64, authorized: bool },
    Refund { donor: u64, now: u64, authorized: bool },
}

/// The campaign after one call: changed where the call is accepted, as it
/// was where the call is refused.
pub open spec fn step(v: CampaignView, call: Call) -> CampaignView {
    match call {
        Call::Donate { donor, amount, now, authorized } => if donate_refusal(
            v,
            amount,
            now,
            authorized,
        ) is None {
            after_donate(v, donor, amount)
        } else {
            v
        },
        Call::Refund { donor, now, authorized } => if refund_refusal(v, donor, now, authorized)
            is None {
            after_refund(v, donor)
        } else {
            v
        },
    }
}

/// Whether the call keeps the total raised within what the machine can
/// hold.
pub open spec fn in_range(v: CampaignView, call: Call) -> bool {
    match call {
        Call::Donate { donor, amount, now, authorized } => donate_refusal(
            v,
            amount,
            now,
            authorized,
        ) is None ==> v.total_raised + amount <= i128::MAX,
        Call::Refund { donor, now, authorized } => true,
    }
}

/// The campaign after a sequence of calls, one after the other.
pub open spec fn run(v: CampaignView, calls: Seq<Call>) -> CampaignView
    decreases calls.len(),
{
    if calls.len() == 0 {
        v
    } else {
        step(run(v, calls.drop_last()), calls.last())
    }
}

/// Whether every call of the sequence stays in range where it is made.
pub open spec fn all_in_range(v: CampaignView, calls: Seq<Call>) -> bool
    decreases calls.len(),
{
    if calls.len() == 0 {
        true
    } else {
        all_in_range(v, calls.drop_last()) && in_range(run(v, calls.drop_last()), calls.last())
    }
}

/// One call keeps the books balanced: after it the total raised is again
/// the sum of the donations that were not refunded, and none is negative.
pub proof fn lemma_step_keeps_valid(v: CampaignView, call: Call)
    requires
        valid(v),
        in_range(v, call),
    ensures
        valid(step(v, call)),
{
    match call {
        Call::Donate { donor, amount, now, authorized } => {
            if donate_refusal(v, amount, now, authorized) is None {
                let held = balance_of(v.donations, donor);
                crate::ledger::lemma_balance_within_sum(v.donations, donor);
                crate::ledger::lemma_sum_insert(v.donations, donor, (held + amount) as i128);
            }
        },
        Call::Refund { donor, now, authorized } => {
            if refund_refusal(v, donor, now, authorized) is None {
                crate::ledger::lemma_balance_within_sum(v.donations, donor);
                crate::ledger::lemma_sum_insert(v.donations, donor, 0i128);
            }
        },
    }
}

/// After any sequence of donations and refunds, accepted or refused, the
/// total raised equals the sum of all donations that were not refunded.
pub proof fn lemma_books_balance(v: CampaignView, calls: Seq<Call>)
    requires
        valid(v),
        all_in_range(v, calls),
    ensures
        valid(run(v, calls)),
        run(v, calls).total_raised == sum_of(run(v, calls).donations),
    decreases calls.len(),
{
    if calls.len() != 0 {
        lemma_books_balance(v, calls.drop_last());
        lemma_step_keeps_valid(run(v, calls.drop_last()), calls.last());
    }
}

/// Before `initialize` every query gives its default: nothing raised,
/// nothing donated, no goal, no deadline, not ended, goal not reached.
pub proof fn lemma_defaults_before_initialize(v: CampaignView, donor: u64, now: u64)
    requires
        valid(v),
        !v.initialized,
    ensures
        v.total_raised == 0,
        balance_of(v.donations, donor) == 0,
        v.goal == 0,
        v.deadline == 0,
        !goal_reached(v),
        !ended(v, now),
        progress(v) == 0,
{
}

/// A refund settles once. After an accepted refund the donor's balance is
/// zero; a second refund for the same donor is refused whenever and by
/// whomever it is asked, so nothing is paid out twice; and asked by the
/// proven donor after the deadline, it is refused for want of a donation.
pub proof fn lemma_refund_settles_once(
    v: CampaignView,
    donor: u64,
    now: u64,
    authorized: bool,
    again: u64,
    authorized_again: bool,
)
    requires
        valid(v),
        refund_refusal(v, donor, now, authorized) is None,
    ensures
        balance_of(after_refund(v, donor).donations, donor) == 0,
        refund_refusal(after_refund(v, donor), donor, again, authorized_again) is Some,
        authorized_again && again > v.deadline ==> refund_refusal(
            after_refund(v, donor),
            donor,
            again,
            authorized_again,
        ) == Some(Error::NoDonationFound),
{
    crate::ledger::lemma_balance_within_sum(v.donations, donor);
}

/// The deadline itself still belongs to the campaign: a proven donor's
/// positive donation is accepted at the deadline and refused as too late
/// one tick after it.
pub proof fn lemma_deadline_is_inclusive(v: CampaignView, amount: i128)
    requires
        valid(v),
        v.initialized,
        amount > 0,
    ensures
        donate_refusal(v, amount, v.deadline, true) is None,
        v.deadline < u64::MAX ==> donate_refusal(v, amount, (v.deadline + 1) as u64, true) == Some(
            Error::CampaignEnded,
        ),
{
}

} // verus!
