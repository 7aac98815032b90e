use crate::error::PoolError;
use vstd::prelude::*;

verus! {

/// One participant's record: created on the first deposit, removed when the
/// balance returns to zero.
#[derive(Clone, Copy, Debug, PartialEq, Eq, Structural)]
pub struct UserDeposit {
    pub participant: u64,
    pub amount: i128,
    pub deposited_at: u64,
}

/// Sum of the amounts of a sequence of records.
pub open spec fn sum_amounts(s: Seq<UserDeposit>) -> int
    decreases s.len(),
{
    if s.len() == 0 {
        0
    } else {
        sum_amounts(s.drop_last()) + s.last().amount as int
    }
}

/// Records are in strictly ascending participant order (so each participant
/// has at most one) and every amount is positive.
pub open spec fn records_ok(s: Seq<UserDeposit>) -> bool {
    &&& forall|i: int, j: int| 0 <= i < j < s.len() ==> s[i].participant < s[j].participant
    &&& forall|i: int| 0 <= i < s.len() ==> s[i].amount > 0
}

pub open spec fn has_record(s: Seq<UserDeposit>, p: u64) -> bool {
    exists|i: int| 0 <= i < s.len() && s[i].participant == p
}

/// The balance of `p`: the amount of its record, or zero without one.
pub open spec fn balance_in(s: Seq<UserDeposit>, p: u64) -> int {
    if has_record(s, p) {
        s[choose|i: int| 0 <= i < s.len() && s[i].participant == p].amount as int
    } else {
        0
    }
}

/// The balances as a map from participant to amount, holding exactly the
/// participants that have a record.
pub open spec fn balances_of(s: Seq<UserDeposit>) -> Map<u64, int> {
    Map::new(|p: u64| has_record(s, p), |p: u64| balance_in(s, p))
}

/// Sum of the amounts of the first `i` records: participant `i`'s tickets
/// start there.
pub open spec fn prefix_sum(s: Seq<UserDeposit>, i: int) -> int {
    sum_amounts(s.subrange(0, i))
}

/// Ticket `t` falls in the range of the record at index `k`.
pub open spec fn selects(s: Seq<UserDeposit>, t: int, k: int) -> bool {
    0 <= k < s.len() && prefix_sum(s, k) <= t < prefix_sum(s, k + 1)
}

pub proof fn lemma_sum_single(x: UserDeposit)
    ensures
        sum_amounts(seq![x]) == x.amount,
{
    assert(seq![x].drop_last() =~= Seq::<UserDeposit>::empty());
    assert(sum_amounts(Seq::<UserDeposit>::empty()) == 0);
    assert(seq![x].last() == x);
}

pub proof fn lemma_sum_concat(a: Seq<UserDeposit>, b: Seq<UserDeposit>)
    ensures
        sum_amounts(a + b) == sum_amounts(a) + sum_amounts(b),
    decreases b.len(),
{
    if b.len() == 0 {
        assert(a + b =~= a);
    } else {
        lemma_sum_concat(a, b.drop_last());
        assert((a + b).drop_last() =~= a + b.drop_last());
    }
}

pub proof fn lemma_sum_nonneg(s: Seq<UserDeposit>)
    requires
        forall|i: int| 0 <= i < s.len() ==> s[i].amount > 0,
    ensures
        sum_amounts(s) >= 0,
        s.len() > 0 ==> sum_amounts(s) > 0,
    decreases s.len(),
{
    if s.len() > 0 {
        lemma_sum_nonneg(s.drop_last());
    }
}

/// The sum split around index `i`.
pub proof fn lemma_sum_around(s: Seq<UserDeposit>, i: int)
    requires
        0 <= i < s.len(),
    ensures
        sum_amounts(s) == sum_amounts(s.subrange(0, i)) + s[i].amount + sum_amounts(
            s.subrange(i + 1, s.len() as int),
        ),
{
    let a = s.subrange(0, i);
    let b = s.subrange(i + 1, s.len() as int);
    assert(s =~= a + seq![s[i]] + b);
    lemma_sum_concat(a + seq![s[i]], b);
    lemma_sum_concat(a, seq![s[i]]);
    lemma_sum_single(s[i]);
}

pub proof fn lemma_record_le_sum(s: Seq<UserDeposit>, i: int)
    requires
        records_ok(s),
        0 <= i < s.len(),
    ensures
        s[i].amount <= sum_amounts(s),
{
    lemma_sum_around(s, i);
    lemma_sum_nonneg(s.subrange(0, i));
    lemma_sum_nonneg(s.subrange(i + 1, s.len() as int));
}

pub proof fn lemma_balance_at(s: Seq<UserDeposit>, k: int)
    requires
        records_ok(s),
        0 <= k < s.len(),
    ensures
        has_record(s, s[k].participant),
        balance_in(s, s[k].participant) == s[k].amount,
{
    let p = s[k].participant;
    assert(0 <= k < s.len() && s[k].participant == p);
    let i = choose|i: int| 0 <= i < s.len() && s[i].participant == p;
    if i < k {
        assert(s[i].participant < s[k].participant);
    } else if i > k {
        assert(s[k].participant < s[i].participant);
    }
}

/// Per-participant balances and their aggregate.
pub struct DepositLedger {
    entries: Vec<UserDeposit>,
    total: i128,
}

impl DepositLedger {
    /// The records, in ascending participant order.
    pub closed spec fn records(&self) -> Seq<UserDeposit> {
        self.entries@
    }

    /// The aggregate that the ledger keeps.
    pub closed spec fn aggregate(&self) -> int {
        self.total as int
    }

    /// One record per participant, each positive, and the aggregate equal to
    /// the sum of all of them.
    pub open spec fn wf(&self) -> bool {
        &&& records_ok(self.records())
        &&& self.aggregate() == sum_amounts(self.records())
    }

    pub open spec fn balances(&self) -> Map<u64, int> {
        balances_of(self.records())
    }

    pub open spec fn balance(&self, p: u64) -> int {
        balance_in(self.records(), p)
    }

    /// An empty ledger.
    pub fn new() -> (r: Self)
        ensures
            r.wf(),
            r.records() == Seq::<UserDeposit>::empty(),
            r.aggregate() == 0,
    {
        DepositLedger { entries: Vec::new(), total: 0 }
    }

    /// Rebuilds a ledger from stored records, if they are in strictly
    /// ascending participant order, all positive, and their sum fits.
    pub fn from_records(entries: Vec<UserDeposit>) -> (r: Option<Self>)
        ensures
            r is Some <==> (records_ok(entries@) && sum_amounts(entries@) <= i128::MAX),
            r matches Some(l) ==> l.wf() && l.records() == entries@,
    {
        let ghost s = entries@;
        let mut total: i128 = 0;
        let mut i: usize = 0;
        assert(s.subrange(0, 0) =~= Seq::<UserDeposit>::empty());
        while i < entries.len()
            invariant
                s == entries@,
                i <= s.len(),
                total as int == prefix_sum(s, i as int),
                forall|a: int, b: int| 0 <= a < b < i ==> s[a].participant < s[b].participant,
                forall|a: int| 0 <= a < i ==> s[a].amount > 0,
            decreases s.len() - i,
        {
            let e = entries[i];
            if e.amount <= 0 || (i > 0 && entries[i - 1].participant >= e.participant) {
                return None;
            }
            proof {
                lemma_prefix_step(s, i as int);
            }
            if total > i128::MAX - e.amount {
                proof {
                    if records_ok(s) {
                        lemma_prefix_le_sum(s, i + 1);
                    }
                }
                return None;
            }
            total = total + e.amount;
            i += 1;
        }
        assert(s.subrange(0, s.len() as int) =~= s);
        Some(DepositLedger { entries, total })
    }

    pub fn entries(&self) -> (r: &Vec<UserDeposit>)
        ensures
            r@ == self.records(),
    {
        &self.entries
    }

    pub fn total(&self) -> (r: i128)
        ensures
            r as int == self.aggregate(),
    {
        self.total
    }

    /// Index of the first record whose participant is not below `p`.
    fn position(&self, p: u64) -> (k: usize)
        requires
            self.wf(),
        ensures
            k <= self.records().len(),
            forall|i: int| 0 <= i < k ==> self.records()[i].participant < p,
            k < self.records().len() ==> self.records()[k as int].participant >= p,
            has_record(self.records(), p) <==> (k < self.records().len()
                && self.records()[k as int].participant == p),
    {
        let mut k: usize = 0;
        while k < self.entries.len() && self.entries[k].participant < p
            invariant
                self.wf(),
                k <= self.entries@.len(),
                forall|i: int| 0 <= i < k ==> self.entries@[i].participant < p,
            decreases self.entries@.len() - k,
        {
            k += 1;
        }
        proof {
            let s = self.entries@;
            if has_record(s, p) {
                let j = choose|j: int| 0 <= j < s.len() && s[j].participant == p;
                if j > k {
                    assert(s[k as int].participant < s[j].participant);
                }
            }
        }
        k
    }

    /// The balance of `p`, zero where it has no record.
    pub fn balance_of(&self, p: u64) -> (r: i128)
        requires
            self.wf(),
        ensures
            r as int == self.balance(p),
            r >= 0,
            r == 0 <==> !has_record(self.records(), p),
    {
        let k = self.position(p);
        if k < self.entries.len() && self.entries[k].participant == p {
            proof {
                lemma_balance_at(self.entries@, k as int);
            }
            self.entries[k].amount
        } else {
            0
        }
    }

    /// Adds `amount` to the balance of `p`, creating its record if needed.
    pub fn deposit(&mut self, p: u64, amount: i128, now: u64)
        requires
            old(self).wf(),
            amount > 0,
            old(self).aggregate() + amount <= i128::MAX,
        ensures
            final(self).wf(),
            final(self).aggregate() == old(self).aggregate() + amount,
            final(self).balances() == old(self).balances().insert(p, old(self).balance(p) + amount),
    {
        let k = self.position(p);
        let ghost s = self.entries@;
        if k < self.entries.len() && self.entries[k].participant == p {
            let e = self.entries[k];
            proof {
                lemma_record_le_sum(s, k as int);
                lemma_balance_at(s, k as int);
            }
            let r = UserDeposit { participant: p, amount: e.amount + amount, deposited_at: e.deposited_at };
            self.entries.set(k, r);
            proof {
                lemma_update_record(s, k as int, r);
            }
        } else {
            let r = UserDeposit { participant: p, amount, deposited_at: now };
            self.entries.insert(k, r);
            proof {
                lemma_insert_record(s, k as int, r);
            }
        }
        self.total = self.total + amount;
    }

    /// Whether `p` may withdraw `amount`, with the error it would get if not.
    pub fn check_withdraw(&self, p: u64, amount: i128) -> (r: Result<(), PoolError>)
        requires
            self.wf(),
        ensures
            r == withdraw_outcome(self.balances(), p, amount as int),
    {
        if amount <= 0 {
            return Err(PoolError::InvalidAmount);
        }
        let b = self.balance_of(p);
        if b == 0 {
            Err(PoolError::NoDeposit)
        } else if amount > b {
            Err(PoolError::InsufficientBalance)
        } else {
            Ok(())
        }
    }

    /// Takes `amount` off the balance of `p`, removing its record when the
    /// balance reaches zero.
    pub fn withdraw(&mut self, p: u64, amount: i128)
        requires
            old(self).wf(),
            0 < amount <= old(self).balance(p),
        ensures
            final(self).wf(),
            final(self).aggregate() == old(self).aggregate() - amount,
            amount == old(self).balance(p) ==> final(self).balances() == old(self).balances().remove(p),
            amount < old(self).balance(p) ==> final(self).balances() == old(self).balances().insert(
                p,
                old(self).balance(p) - amount,
            ),
    {
        let k = self.position(p);
        let ghost s = self.entries@;
        proof {
            if k < s.len() && s[k as int].participant == p {
                lemma_balance_at(s, k as int);
                lemma_record_le_sum(s, k as int);
            }
        }
        let e = self.entries[k];
        if e.amount == amount {
            self.entries.remove(k);
            proof {
                lemma_remove_record(s, k as int);
            }
        } else {
            let r = UserDeposit { participant: p, amount: e.amount - amount, deposited_at: e.deposited_at };
            self.entries.set(k, r);
            proof {
                lemma_update_record(s, k as int, r);
            }
        }
        self.total = self.total - amount;
    }

    /// The index of the record whose ticket range holds `t`.
    pub fn select(&self, t: i128) -> (k: usize)
        requires
            self.wf(),
            0 <= t < self.aggregate(),
        ensures
            selects(self.records(), t as int, k as int),
    {
        let ghost s = self.entries@;
        let mut k: usize = 0;
        let mut acc: i128 = 0;
        proof {
            assert(s.subrange(0, 0) =~= Seq::<UserDeposit>::empty());
            assert(s.subrange(0, s.len() as int) =~= s);
        }
        while k < self.entries.len()
            invariant
                self.wf(),
                s == self.entries@,
                k <= s.len(),
                acc as int == prefix_sum(s, k as int),
                acc <= t,
                t < sum_amounts(s),
                s.subrange(0, s.len() as int) == s,
            decreases s.len() - k,
        {
            proof {
                assert(s.subrange(0, k + 1).drop_last() =~= s.subrange(0, k as int));
                lemma_prefix_le_sum(s, k + 1);
            }
            let next = acc + self.entries[k].amount;
            if t < next {
                return k;
            }
            acc = next;
            k += 1;
        }
        k
    }
}

/// The outcome of asking to withdraw `amount` for `p` from `balances`.
pub open spec fn withdraw_outcome(balances: Map<u64, int>, p: u64, amount: int) -> Result<(), PoolError> {
    if amount <= 0 {
        Err(PoolError::InvalidAmount)
    } else if !balances.dom().contains(p) {
        Err(PoolError::NoDeposit)
    } else if amount > balances[p] {
        Err(PoolError::InsufficientBalance)
    } else {
        Ok(())
    }
}

proof fn lemma_prefix_le_sum(s: Seq<UserDeposit>, i: int)
    requires
        records_ok(s),
        0 <= i <= s.len(),
    ensures
        prefix_sum(s, i) <= sum_amounts(s),
{
    assert(s =~= s.subrange(0, i) + s.subrange(i, s.len() as int));
    lemma_sum_concat(s.subrange(0, i), s.subrange(i, s.len() as int));
    lemma_sum_nonneg(s.subrange(i, s.len() as int));
}

proof fn lemma_remove_record(s: Seq<UserDeposit>, k: int)
    requires
        records_ok(s),
        0 <= k < s.len(),
    ensures
        records_ok(s.remove(k)),
        sum_amounts(s.remove(k)) == sum_amounts(s) - s[k].amount,
        balances_of(s.remove(k)) == balances_of(s).remove(s[k].participant),
{
    let s2 = s.remove(k);
    let p = s[k].participant;
    let a = s.subrange(0, k);
    let b = s.subrange(k + 1, s.len() as int);
    assert(s2 =~= a + b);
    lemma_sum_concat(a, b);
    lemma_sum_around(s, k);
    assert(records_ok(s2)) by {
        assert forall|i: int, j: int| 0 <= i < j < s2.len() implies s2[i].participant
            < s2[j].participant by {
            if i < k && j >= k {
                assert(s[i].participant < s[j + 1].participant);
            }
        }
    }
    assert forall|q: u64| has_record(s2, q) == (q != p && has_record(s, q)) by {
        if has_record(s, q) && q != p {
            let j = choose|j: int| 0 <= j < s.len() && s[j].participant == q;
            if j < k {
                assert(s2[j].participant == q);
            } else {
                assert(s2[j - 1].participant == q);
            }
        }
        if has_record(s2, q) {
            let j = choose|j: int| 0 <= j < s2.len() && s2[j].participant == q;
            if j < k {
                assert(s[j].participant == q);
                assert(s[j].participant < s[k].participant);
            } else {
                assert(s[j + 1].participant == q);
                assert(s[k].participant < s[j + 1].participant);
            }
        }
    }
    assert forall|q: u64| has_record(s2, q) implies balance_in(s2, q) == balances_of(s)[q] by {
        let j = choose|j: int| 0 <= j < s2.len() && s2[j].participant == q;
        lemma_balance_at(s2, j);
        if j < k {
            lemma_balance_at(s, j);
        } else {
            lemma_balance_at(s, j + 1);
        }
    }
    assert(balances_of(s2) =~= balances_of(s).remove(p));
}
proof fn lemma_update_record(s: Seq<UserDeposit>, k: int, r: UserDeposit)
    requires
        records_ok(s),
        0 <= k < s.len(),
        r.participant == s[k].participant,
        r.amount > 0,
    ensures
        records_ok(s.update(k, r)),
        sum_amounts(s.update(k, r)) == sum_amounts(s) - s[k].amount + r.amount,
        balances_of(s.update(k, r)) == balances_of(s).insert(r.participant, r.amount as int),
{
    let s2 = s.update(k, r);
    lemma_sum_around(s, k);
    lemma_sum_around(s2, k);
    assert(s2.subrange(0, k) =~= s.subrange(0, k));
    assert(s2.subrange(k + 1, s2.len() as int) =~= s.subrange(k + 1, s.len() as int));
    assert(records_ok(s2));
    assert forall|q: u64| has_record(s2, q) == has_record(s, q) by {
        if has_record(s, q) {
            let j = choose|j: int| 0 <= j < s.len() && s[j].participant == q;
            assert(s2[j].participant == q);
        }
        if has_record(s2, q) {
            let j = choose|j: int| 0 <= j < s2.len() && s2[j].participant == q;
            assert(s[j].participant == q);
        }
    }
    assert forall|q: u64| has_record(s2, q) implies balance_in(s2, q) == balances_of(s).insert(
        r.participant,
        r.amount as int,
    )[q] by {
        let j = choose|j: int| 0 <= j < s2.len() && s2[j].participant == q;
        lemma_balance_at(s2, j);
        lemma_balance_at(s, j);
    }
    assert(balances_of(s2) =~= balances_of(s).insert(r.participant, r.amount as int));
}

proof fn lemma_insert_record(s: Seq<UserDeposit>, k: int, r: UserDeposit)
    requires
        records_ok(s),
        0 <= k <= s.len(),
        forall|i: int| 0 <= i < k ==> s[i].participant < r.participant,
        k < s.len() ==> s[k].participant > r.participant,
        r.amount > 0,
    ensures
        records_ok(s.insert(k, r)),
        sum_amounts(s.insert(k, r)) == sum_amounts(s) + r.amount,
        !has_record(s, r.participant),
        balances_of(s.insert(k, r)) == balances_of(s).insert(r.participant, r.amount as int),
{
    let s2 = s.insert(k, r);
    let a = s.subrange(0, k);
    let b = s.subrange(k, s.len() as int);
    assert(s2 =~= a + seq![r] + b);
    assert(s =~= a + b);
    lemma_sum_concat(a, b);
    lemma_sum_concat(a + seq![r], b);
    lemma_sum_concat(a, seq![r]);
    lemma_sum_single(r);
    assert(records_ok(s2)) by {
        assert forall|i: int, j: int| 0 <= i < j < s2.len() implies s2[i].participant
            < s2[j].participant by {
            if j == k + 1 && i == k {
                assert(s2[j] == s[k]);
            } else if i == k && j > k + 1 {
                assert(s[k].participant < s[j - 1].participant);
            }
        }
    }
    if has_record(s, r.participant) {
        let j = choose|j: int| 0 <= j < s.len() && s[j].participant == r.participant;
        if j > k {
            assert(s[k].participant < s[j].participant);
        }
    }
    assert forall|q: u64| has_record(s2, q) == (q == r.participant || has_record(s, q)) by {
        if has_record(s, q) {
            let j = choose|j: int| 0 <= j < s.len() && s[j].participant == q;
            if j < k {
                assert(s2[j].participant == q);
            } else {
                assert(s2[j + 1].participant == q);
            }
        }
        if q == r.participant {
            assert(s2[k].participant == q);
        }
        if has_record(s2, q) && q != r.participant {
            let j = choose|j: int| 0 <= j < s2.len() && s2[j].participant == q;
            if j < k {
                assert(s[j].participant == q);
            } else {
                assert(s[j - 1].participant == q);
            }
        }
    }
    assert forall|q: u64| has_record(s2, q) implies balance_in(s2, q) == balances_of(s).insert(
        r.participant,
        r.amount as int,
    )[q] by {
        let j = choose|j: int| 0 <= j < s2.len() && s2[j].participant == q;
        lemma_balance_at(s2, j);
        if j < k {
            lemma_balance_at(s, j);
        } else if j > k {
            lemma_balance_at(s, j - 1);
        }
    }
    assert(balances_of(s2) =~= balances_of(s).insert(r.participant, r.amount as int));
}

proof fn lemma_prefix_step(s: Seq<UserDeposit>, k: int)
    requires
        0 <= k < s.len(),
    ensures
        prefix_sum(s, k + 1) == prefix_sum(s, k) + s[k].amount,
{
    assert(s.subrange(0, k + 1).drop_last() =~= s.subrange(0, k));
}

proof fn lemma_prefix_mono(s: Seq<UserDeposit>, i: int, j: int)
    requires
        records_ok(s),
        0 <= i <= j <= s.len(),
    ensures
        0 <= prefix_sum(s, i) <= prefix_sum(s, j),
{
    assert(s.subrange(0, j) =~= s.subrange(0, i) + s.subrange(i, j));
    lemma_sum_concat(s.subrange(0, i), s.subrange(i, j));
    lemma_sum_nonneg(s.subrange(i, j));
    lemma_sum_nonneg(s.subrange(0, i));
}

/// Deposit-weighted selection is exact: the tickets below the aggregate that
/// select the participant of record `k` form one interval whose length is that
/// participant's balance, and no ticket selects two records. A ticket drawn
/// uniformly below the aggregate thus picks each participant with probability
/// balance / aggregate.
pub proof fn lemma_selection_proportional(s: Seq<UserDeposit>, k: int)
    requires
        records_ok(s),
        0 <= k < s.len(),
    ensures
        0 <= prefix_sum(s, k),
        prefix_sum(s, k) + balance_in(s, s[k].participant) <= sum_amounts(s),
        forall|t: int|
            selects(s, t, k) <==> prefix_sum(s, k) <= t < prefix_sum(s, k) + balance_in(
                s,
                s[k].participant,
            ),
        forall|t: int, j: int| selects(s, t, k) && #[trigger] selects(s, t, j) ==> j == k,
{
    lemma_balance_at(s, k);
    lemma_prefix_step(s, k);
    lemma_prefix_mono(s, k, k);
    lemma_prefix_le_sum(s, k + 1);
    assert forall|t: int, j: int| selects(s, t, k) && #[trigger] selects(s, t, j) implies j == k by {
        if j < k {
            lemma_prefix_mono(s, j + 1, k);
        } else if j > k {
            lemma_prefix_mono(s, k + 1, j);
        }
    }
}

/// A balance is never negative and never more than the aggregate.
pub proof fn lemma_balance_bounds(s: Seq<UserDeposit>, p: u64)
    requires
        records_ok(s),
    ensures
        0 <= balance_in(s, p) <= sum_amounts(s),
{
    lemma_sum_nonneg(s);
    if has_record(s, p) {
        let k = choose|k: int| 0 <= k < s.len() && s[k].participant == p;
        lemma_balance_at(s, k);
        lemma_record_le_sum(s, k);
    }
}

} // verus!
