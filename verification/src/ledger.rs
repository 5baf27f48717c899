//! The ledger: what each participant holds, and the sum of it all.

use vstd::prelude::*;
use std::collections::BTreeMap;
use crate::error::Error;

verus! {

/// The sum of all the amounts a finite map holds.
pub open spec fn sum_of(m: Map<u64, i128>) -> int
    decreases m.dom().len(),
    when m.dom().finite()
{
    if m.dom().len() == 0 {
        0
    } else {
        let k = m.dom().choose();
        m[k] + sum_of(m.remove(k))
    }
}

/// What a participant holds: nothing, unless the map says otherwise.
pub open spec fn balance_of(m: Map<u64, i128>, id: u64) -> int {
    if m.dom().contains(id) {
        m[id] as int
    } else {
        0
    }
}

/// No balance is negative.
pub open spec fn non_negative(m: Map<u64, i128>) -> bool {
    forall|k: u64| m.dom().contains(k) ==> #[trigger] m[k] >= 0
}

/// The sum can be taken with any one participant set apart first.
pub proof fn lemma_sum_apart(m: Map<u64, i128>, id: u64)
    requires
        m.dom().finite(),
        m.dom().contains(id),
    ensures
        sum_of(m) == m[id] + sum_of(m.remove(id)),
    decreases m.dom().len(),
{
    let k = m.dom().choose();
    if k != id {
        lemma_sum_apart(m.remove(k), id);
        lemma_sum_apart(m.remove(id), k);
        assert(m.remove(k).remove(id) =~= m.remove(id).remove(k));
    }
}

/// Writing one balance changes the sum by the difference to what stood there.
pub proof fn lemma_sum_insert(m: Map<u64, i128>, id: u64, amount: i128)
    requires
        m.dom().finite(),
    ensures
        sum_of(m.insert(id, amount)) == sum_of(m) - balance_of(m, id) + amount,
{
    let after = m.insert(id, amount);
    lemma_sum_apart(after, id);
    assert(after.remove(id) =~= m.remove(id));
    if m.dom().contains(id) {
        lemma_sum_apart(m, id);
    } else {
        assert(m.remove(id) =~= m);
    }
}

/// Where no balance is negative, none exceeds the sum.
pub proof fn lemma_balance_within_sum(m: Map<u64, i128>, id: u64)
    requires
        m.dom().finite(),
        non_negative(m),
    ensures
        0 <= balance_of(m, id) <= sum_of(m),
    decreases m.dom().len(),
{
    if m.dom().len() != 0 {
        let k = m.dom().choose();
        lemma_balance_within_sum(m.remove(k), id);
        assert(m[k] >= 0);
        if m.dom().contains(id) {
            assert(m[id] >= 0);
        }
    }
}

/// A balance per participant, and the sum of them all kept beside it.
pub struct Ledger {
    balances: BTreeMap<u64, i128>,
    total: i128,
}

impl View for Ledger {
    type V = Map<u64, i128>;

    closed spec fn view(&self) -> Map<u64, i128> {
        self.balances@
    }
}

impl Ledger {
    /// The aggregate as the ledger keeps it.
    pub closed spec fn spec_total(&self) -> i128 {
        self.total
    }

    /// The balances are finite in number, none is negative, and the
    /// aggregate is their sum.
    pub open spec fn wf(&self) -> bool {
        &&& self@.dom().finite()
        &&& non_negative(self@)
        &&& self.spec_total() == sum_of(self@)
    }

    pub fn new() -> (l: Ledger)
        ensures
            l.wf(),
            l@ == Map::<u64, i128>::empty(),
            l.spec_total() == 0,
    {
        Ledger { balances: BTreeMap::new(), total: 0 }
    }

    /// The balance of `id`; zero for a participant the ledger has never seen.
    pub fn read(&self, id: u64) -> (amount: i128)
        requires
            self.wf(),
        ensures
            amount == balance_of(self@, id),
            0 <= amount <= self.spec_total(),
    {
        proof {
            lemma_balance_within_sum(self@, id);
        }
        match self.balances.get(&id) {
            Some(amount) => *amount,
            None => 0,
        }
    }

    #[verifier::when_used_as_spec(spec_total)]
    pub fn total(&self) -> (t: i128)
        ensures
            t == self.spec_total(),
    {
        self.total
    }

    /// Adds `amount` to the balance of `id` and to the aggregate.
    pub fn credit(&mut self, id: u64, amount: i128) -> (r: Result<(), Error>)
        requires
            old(self).wf(),
            amount > 0 ==> old(self).spec_total() + amount <= i128::MAX,
        ensures
            final(self).wf(),
            amount <= 0 ==> r == Err::<(), Error>(Error::InvalidAmount) && *final(self) == *old(self),
            amount > 0 ==> r == Ok::<(), Error>(()) && final(self)@ == old(self)@.insert(
                id,
                (balance_of(old(self)@, id) + amount) as i128,
            ) && final(self).spec_total() == old(self).spec_total() + amount,
    {
        if amount <= 0 {
            return Err(Error::InvalidAmount);
        }
        let held: i128 = self.read(id);
        proof {
            lemma_sum_insert(self@, id, (held + amount) as i128);
        }
        self.balances.insert(id, held + amount);
        self.total = self.total + amount;
        Ok(())
    }

    /// Takes the whole balance of `id` out in one step and hands it back.
    pub fn debit_to_zero(&mut self, id: u64) -> (r: Result<i128, Error>)
        requires
            old(self).wf(),
        ensures
            final(self).wf(),
            balance_of(old(self)@, id) == 0 ==> r == Err::<i128, Error>(Error::NothingToSettle)
                && *final(self) == *old(self),
            balance_of(old(self)@, id) != 0 ==> r == Ok::<i128, Error>(
                balance_of(old(self)@, id) as i128,
            ) && final(self)@ == old(self)@.insert(id, 0i128) && final(self).spec_total() == old(self).spec_total() - balance_of(old(self)@, id),
    {
        let held: i128 = self.read(id);
        if held == 0 {
            return Err(Error::NothingToSettle);
        }
        proof {
            lemma_sum_insert(self@, id, 0i128);
        }
        self.balances.insert(id, 0);
        self.total = self.total - held;
        Ok(held)
    }
}

} // verus!
