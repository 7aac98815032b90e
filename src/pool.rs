use crate::commit::{
    after_commit, after_reveal, reveal_outcome, revealed_bytes, unique, CommitRecord, CommitState,
    CommitmentBook,
};
use crate::digest::{sha256, sha256_of, word_from_bytes, word_of};
use crate::error::PoolError;
use crate::ledger::{
    balances_of, lemma_balance_bounds, lemma_sum_nonneg, records_ok, selects, sum_amounts,
    withdraw_outcome, DepositLedger, UserDeposit,
};
use soroban_sdk::Env;
use vstd::prelude::*;

verus! {

/// The basis-point denominator: 10000 bps make one whole.
pub const BPS_SCALE: i128 = 10000;

/// The pool's settings, fixed at initialization.
#[derive(Clone, Copy, Debug, PartialEq, Eq, Structural)]
pub struct PoolConfig {
    pub admin: u64,
    pub token: u64,
    pub period_secs: u64,
    pub apr_bps: u32,
    pub created_at: u64,
}

/// What a draw decided.
#[derive(Clone, Copy, Debug, PartialEq, Eq, Structural)]
pub struct DrawResult {
    pub winner: u64,
    pub prize: i128,
    pub random: u64,
}

/// The prize for an aggregate: one period of simple interest at `apr_bps`.
pub open spec fn prize_for(aggregate: int, apr_bps: int) -> int {
    aggregate * apr_bps / 10000
}

/// The bytes hashed into a draw's random value: the host's sequence number,
/// big-endian, followed by the revealed preimages.
pub open spec fn entropy_input(sequence: u32, revealed: Seq<u8>) -> Seq<u8> {
    seq![
        (sequence / 0x1000000) as u8,
        (sequence / 0x10000 % 0x100) as u8,
        (sequence / 0x100 % 0x100) as u8,
        (sequence % 0x100) as u8,
    ] + revealed
}

/// A prize pool: the configuration, the deposit ledger, the commitments of the
/// current epoch and the period state.
pub struct PrizePool {
    config: PoolConfig,
    ledger: DepositLedger,
    commits: CommitmentBook,
    period_start: u64,
    draw_executed: bool,
}

impl PrizePool {
    pub closed spec fn conf(&self) -> PoolConfig {
        self.config
    }

    pub closed spec fn book(&self) -> DepositLedger {
        self.ledger
    }

    pub closed spec fn commitments(&self) -> CommitmentBook {
        self.commits
    }

    pub closed spec fn start(&self) -> u64 {
        self.period_start
    }

    pub closed spec fn executed(&self) -> bool {
        self.draw_executed
    }

    pub open spec fn wf(&self) -> bool {
        &&& self.book().wf()
        &&& self.commitments().wf()
        &&& !self.executed()
    }

    /// Balances of the participants that hold a deposit.
    pub open spec fn balances(&self) -> Map<u64, int> {
        self.book().balances()
    }

    pub open spec fn aggregate(&self) -> int {
        self.book().aggregate()
    }

    pub open spec fn seeds(&self) -> Map<u64, CommitState> {
        self.commitments().states()
    }

    pub open spec fn balance(&self, p: u64) -> int {
        if self.balances().dom().contains(p) {
            self.balances()[p]
        } else {
            0
        }
    }

    /// The end of the current period.
    pub open spec fn deadline(&self) -> int {
        self.start() + self.conf().period_secs
    }

    /// Whether `self` and `o` agree on everything but the ledger.
    pub open spec fn same_but_ledger(&self, o: &PrizePool) -> bool {
        &&& self.conf() == o.conf()
        &&& self.seeds() == o.seeds()
        &&& self.start() == o.start()
        &&& self.executed() == o.executed()
    }

    /// Whether `self` and `o` agree on everything but the commitments.
    pub open spec fn same_but_seeds(&self, o: &PrizePool) -> bool {
        &&& self.conf() == o.conf()
        &&& self.balances() == o.balances()
        &&& self.aggregate() == o.aggregate()
        &&& self.book().records() == o.book().records()
        &&& self.start() == o.start()
        &&& self.executed() == o.executed()
    }

    /// Why a draw at `now` cannot run, if it cannot.
    pub open spec fn draw_check(&self, now: u64) -> Result<(), PoolError> {
        if now < self.deadline() {
            Err(PoolError::PeriodNotFinished)
        } else if self.executed() {
            Err(PoolError::DrawAlreadyExecuted)
        } else if self.aggregate() == 0 {
            Err(PoolError::EmptyPool)
        } else {
            Ok(())
        }
    }

    /// `d` is the draw that `random` decides on this pool: its ticket,
    /// `random` modulo the aggregate, lies in the winner's range of the
    /// records in ascending participant order.
    pub open spec fn decides(&self, random: u64, d: DrawResult) -> bool {
        &&& d.random == random
        &&& d.prize == prize_for(self.aggregate(), self.conf().apr_bps as int)
        &&& exists|k: int|
            selects(self.book().records(), random as int % self.aggregate(), k)
                && #[trigger] self.book().records()[k].participant == d.winner
    }

    /// `self` is the state after a completed draw on `o` at `now`: deposits kept,
    /// commitments dropped, and a new period started at `now`.
    pub open spec fn drawn_from(&self, o: &PrizePool, now: u64) -> bool {
        &&& self.conf() == o.conf()
        &&& self.balances() == o.balances()
        &&& self.aggregate() == o.aggregate()
        &&& self.book().records() == o.book().records()
        &&& self.seeds() == Map::<u64, CommitState>::empty()
        &&& self.start() == now
        &&& !self.executed()
    }

    /// What `get_time_remaining` reports at `now`: the seconds left until the
    /// deadline, zero once it has passed, capped at the largest `u64`.
    pub open spec fn remaining(&self, now: u64) -> int {
        if now >= self.deadline() {
            0
        } else if self.deadline() - now > u64::MAX {
            u64::MAX as int
        } else {
            self.deadline() - now
        }
    }

    /// The random value that a draw derives from the host's sequence number
    /// and the revealed preimages.
    pub open spec fn random_for(&self, sequence: u32) -> int {
        word_of(sha256_of(entropy_input(sequence, revealed_bytes(self.commitments().records()))))
    }

    /// Creates a pool whose first period starts at `now`.
    pub fn init(admin: u64, token: u64, period_secs: u64, apr_bps: u32, now: u64) -> (r: Self)
        ensures
            r.wf(),
            r.conf() == (PoolConfig { admin, token, period_secs, apr_bps, created_at: now }),
            r.balances() == Map::<u64, int>::empty(),
            r.aggregate() == 0,
            r.seeds() == Map::<u64, CommitState>::empty(),
            r.start() == now,
            !r.executed(),
    {
        let ledger = DepositLedger::new();
        proof {
            assert(ledger.balances() =~= Map::<u64, int>::empty());
        }
        PrizePool {
            config: PoolConfig { admin, token, period_secs, apr_bps, created_at: now },
            ledger,
            commits: CommitmentBook::new(),
            period_start: now,
            draw_executed: false,
        }
    }

    /// Rebuilds a pool from stored state, if the deposit records and the
    /// commitments are well formed (see `DepositLedger::from_records` and
    /// `CommitmentBook::from_records`).
    pub fn restore(
        config: PoolConfig,
        deposits: Vec<UserDeposit>,
        commitments: Vec<CommitRecord>,
        period_start: u64,
    ) -> (r: Option<Self>)
        ensures
            r is Some <==> (records_ok(deposits@) && sum_amounts(deposits@) <= i128::MAX && unique(
                commitments@,
            )),
            r matches Some(p) ==> {
                &&& p.wf()
                &&& p.conf() == config
                &&& p.book().records() == deposits@
                &&& p.commitments().records() == commitments@
                &&& p.start() == period_start
            },
    {
        let ledger = match DepositLedger::from_records(deposits) {
            Some(l) => l,
            None => return None,
        };
        let commits = match CommitmentBook::from_records(commitments) {
            Some(c) => c,
            None => return None,
        };
        Some(PrizePool { config, ledger, commits, period_start, draw_executed: false })
    }

    /// The deposit records, in ascending participant order.
    pub fn deposits(&self) -> (r: &Vec<UserDeposit>)
        ensures
            r@ == self.book().records(),
    {
        self.ledger.entries()
    }

    /// The commitments of the current epoch.
    pub fn commitment_records(&self) -> (r: &Vec<CommitRecord>)
        ensures
            r@ == self.commitments().records(),
    {
        self.commits.entries()
    }

    /// When the current period started.
    pub fn period_start(&self) -> (r: u64)
        ensures
            r == self.start(),
    {
        self.period_start
    }

    /// Credits `amount` to `from` once the transfer into custody is known to
    /// have happened (`transferred`); otherwise the pool is left as it was.
    pub fn deposit(&mut self, from: u64, amount: i128, now: u64, transferred: bool) -> (r: Result<(), PoolError>)
        requires
            old(self).wf(),
            amount > 0 ==> old(self).aggregate() + amount <= i128::MAX,
        ensures
            final(self).wf(),
            amount <= 0 ==> r == Err::<(), PoolError>(PoolError::InvalidAmount),
            amount > 0 && !transferred ==> r == Err::<(), PoolError>(PoolError::TransferFailed),
            amount > 0 && transferred ==> r is Ok,
            r is Err ==> *final(self) == *old(self),
            r is Ok ==> {
                &&& final(self).same_but_ledger(old(self))
                &&& final(self).aggregate() == old(self).aggregate() + amount
                &&& final(self).balances() == old(self).balances().insert(from, old(self).balance(from) + amount)
            },
    {
        if amount <= 0 {
            return Err(PoolError::InvalidAmount);
        }
        if !transferred {
            return Err(PoolError::TransferFailed);
        }
        self.ledger.deposit(from, amount, now);
        Ok(())
    }

    /// Whether `to` may withdraw `amount`, checked before the transfer out of
    /// custody is attempted.
    pub fn check_withdraw(&self, to: u64, amount: i128) -> (r: Result<(), PoolError>)
        requires
            self.wf(),
        ensures
            r == withdraw_outcome(self.balances(), to, amount as int),
    {
        self.ledger.check_withdraw(to, amount)
    }

    /// Debits `amount` from `to`, given whether the transfer out of custody
    /// succeeded; a failed transfer leaves the pool as it was.
    pub fn withdraw(&mut self, to: u64, amount: i128, transferred: bool) -> (r: Result<(), PoolError>)
        requires
            old(self).wf(),
        ensures
            final(self).wf(),
            withdraw_outcome(old(self).balances(), to, amount as int) is Err ==> r
                == withdraw_outcome(old(self).balances(), to, amount as int),
            withdraw_outcome(old(self).balances(), to, amount as int) is Ok && !transferred ==> r
                == Err::<(), PoolError>(PoolError::TransferFailed),
            withdraw_outcome(old(self).balances(), to, amount as int) is Ok && transferred ==> r is Ok,
            r is Err ==> *final(self) == *old(self),
            r is Ok ==> {
                &&& final(self).same_but_ledger(old(self))
                &&& final(self).aggregate() == old(self).aggregate() - amount
                &&& amount == old(self).balance(to) ==> final(self).balances() == old(self).balances().remove(to)
                &&& amount < old(self).balance(to) ==> final(self).balances() == old(self).balances().insert(
                    to,
                    old(self).balance(to) - amount,
                )
            },
    {
        let c = self.ledger.check_withdraw(to, amount);
        if c.is_err() {
            return c;
        }
        if !transferred {
            return Err(PoolError::TransferFailed);
        }
        self.ledger.withdraw(to, amount);
        Ok(())
    }

    /// Records `seed_hash` as the commitment of `from` for this epoch.
    pub fn commit_seed(&mut self, from: u64, seed_hash: Vec<u8>)
        requires
            old(self).wf(),
        ensures
            final(self).wf(),
            final(self).same_but_seeds(old(self)),
            final(self).seeds() == after_commit(old(self).seeds(), from, seed_hash@),
    {
        self.commits.commit(from, seed_hash);
    }

    /// Reveals `seed`, whose digest is `digest`, against the commitment of
    /// `from`.
    pub fn reveal_seed_with_digest(&mut self, from: u64, seed: Vec<u8>, digest: &Vec<u8>) -> (r: Result<(), PoolError>)
        requires
            old(self).wf(),
        ensures
            final(self).wf(),
            r == reveal_outcome(old(self).seeds(), from, seed@, digest@),
            r is Err ==> *final(self) == *old(self),
            r is Ok ==> final(self).same_but_seeds(old(self)) && final(self).seeds() == after_reveal(
                old(self).seeds(),
                from,
                seed@,
            ),
    {
        self.commits.reveal_with_digest(from, seed, digest)
    }

    /// Reveals `seed` against the commitment of `from`: its SHA-256 digest
    /// must be the committed hash.
    pub fn reveal_seed(&mut self, env: &Env, from: u64, seed: Vec<u8>) -> (r: Result<(), PoolError>)
        requires
            old(self).wf(),
        ensures
            final(self).wf(),
            r == reveal_outcome(old(self).seeds(), from, seed@, sha256_of(seed@)),
            r is Err ==> *final(self) == *old(self),
            r is Ok ==> final(self).same_but_seeds(old(self)) && final(self).seeds() == after_reveal(
                old(self).seeds(),
                from,
                seed@,
            ),
    {
        let d = sha256(env, &seed);
        self.reveal_seed_with_digest(from, seed, &d)
    }

    /// The random value of a draw: the first eight bytes, big-endian, of the
    /// SHA-256 digest of the host's sequence number followed by the revealed
    /// preimages of this epoch.
    pub fn draw_random(&self, env: &Env, sequence: u32) -> (r: u64)
        ensures
            r as int == self.random_for(sequence),
    {
        let mut input: Vec<u8> = Vec::new();
        input.push((sequence / 0x1000000) as u8);
        input.push((sequence / 0x10000 % 0x100) as u8);
        input.push((sequence / 0x100 % 0x100) as u8);
        input.push((sequence % 0x100) as u8);
        let mut revealed = self.commits.revealed_entropy();
        input.append(&mut revealed);
        assert(input@ =~= entropy_input(sequence, revealed_bytes(self.commitments().records())));
        let d = sha256(env, &input);
        word_from_bytes(&d)
    }

    /// The draw that `random` decides at `now`, without changing the pool:
    /// the winner to pay before the draw is completed.
    pub fn plan_draw(&self, now: u64, random: u64) -> (r: Result<DrawResult, PoolError>)
        requires
            self.wf(),
            self.aggregate() * self.conf().apr_bps <= i128::MAX,
        ensures
            match r {
                Ok(d) => self.draw_check(now) is Ok && self.decides(random, d),
                Err(e) => self.draw_check(now) == Err::<(), PoolError>(e),
            },
    {
        if now < self.period_start || now - self.period_start < self.config.period_secs {
            return Err(PoolError::PeriodNotFinished);
        }
        if self.draw_executed {
            return Err(PoolError::DrawAlreadyExecuted);
        }
        let total = self.ledger.total();
        if total == 0 {
            return Err(PoolError::EmptyPool);
        }
        proof {
            lemma_sum_nonneg(self.book().records());
        }
        let ticket = (random as i128) % total;
        let k = self.ledger.select(ticket);
        let winner = self.ledger.entries()[k].participant;
        let prize = total * (self.config.apr_bps as i128) / BPS_SCALE;
        assert(selects(self.book().records(), random as int % self.aggregate(), k as int)
            && self.book().records()[k as int].participant == winner);
        Ok(DrawResult { winner, prize, random })
    }

    /// Completes the draw that `random` decides at `now`, given whether the
    /// prize transfer to the winner succeeded: the commitments are dropped
    /// and a new period starts at `now`. A failed transfer leaves the pool as
    /// it was.
    pub fn draw_with_random(&mut self, now: u64, random: u64, transferred: bool) -> (r: Result<DrawResult, PoolError>)
        requires
            old(self).wf(),
            old(self).aggregate() * old(self).conf().apr_bps <= i128::MAX,
        ensures
            final(self).wf(),
            match old(self).draw_check(now) {
                Err(e) => r == Err::<DrawResult, PoolError>(e),
                Ok(_) => if transferred {
                    r is Ok
                } else {
                    r == Err::<DrawResult, PoolError>(PoolError::TransferFailed)
                },
            },
            r is Ok ==> old(self).decides(random, r->Ok_0) && final(self).drawn_from(old(self), now),
            r is Err ==> *final(self) == *old(self),
    {
        let d = match self.plan_draw(now, random) {
            Ok(d) => d,
            Err(e) => return Err(e),
        };
        if !transferred {
            return Err(PoolError::TransferFailed);
        }
        // The drawn period ends here: the next one starts now, with no
        // commitments and no draw executed.
        self.commits.clear();
        self.period_start = now;
        self.draw_executed = false;
        Ok(d)
    }

    /// Runs the draw at `now` with the random value derived from the host's
    /// `sequence` and the revealed preimages (see `draw_random`).
    pub fn draw(&mut self, env: &Env, now: u64, sequence: u32, transferred: bool) -> (r: Result<DrawResult, PoolError>)
        requires
            old(self).wf(),
            old(self).aggregate() * old(self).conf().apr_bps <= i128::MAX,
        ensures
            final(self).wf(),
            match old(self).draw_check(now) {
                Err(e) => r == Err::<DrawResult, PoolError>(e),
                Ok(_) => if transferred {
                    r is Ok
                } else {
                    r == Err::<DrawResult, PoolError>(PoolError::TransferFailed)
                },
            },
            r is Ok ==> r->Ok_0.random == old(self).random_for(sequence) && old(self).decides(
                r->Ok_0.random,
                r->Ok_0,
            ) && final(self).drawn_from(old(self), now),
            r is Err ==> *final(self) == *old(self),
    {
        let random = self.draw_random(env, sequence);
        self.draw_with_random(now, random, transferred)
    }

    /// The balance of `who`, zero without a deposit.
    pub fn get_balance(&self, who: u64) -> (r: i128)
        requires
            self.wf(),
        ensures
            r as int == self.balance(who),
    {
        self.ledger.balance_of(who)
    }

    pub fn get_total_deposited(&self) -> (r: i128)
        ensures
            r as int == self.aggregate(),
    {
        self.ledger.total()
    }

    pub fn get_config(&self) -> (r: PoolConfig)
        ensures
            r == self.conf(),
    {
        self.config
    }

    /// Seconds left in the current period at `now`.
    pub fn get_time_remaining(&self, now: u64) -> (r: u64)
        ensures
            r as int == self.remaining(now),
    {
        let period = self.config.period_secs;
        if now >= self.period_start {
            let elapsed = now - self.period_start;
            if elapsed >= period {
                0
            } else {
                period - elapsed
            }
        } else {
            let ahead = self.period_start - now;
            if ahead > u64::MAX - period {
                u64::MAX
            } else {
                ahead + period
            }
        }
    }

    /// The chance of `who` to win, in basis points of the aggregate, rounded
    /// down; zero for an empty pool.
    pub fn get_win_probability(&self, who: u64) -> (r: u32)
        requires
            self.wf(),
            self.balance(who) * 10000 <= i128::MAX,
        ensures
            r as int == if self.aggregate() == 0 {
                0
            } else {
                self.balance(who) * 10000 / self.aggregate()
            },
    {
        let b = self.ledger.balance_of(who);
        let total = self.ledger.total();
        if total == 0 {
            return 0;
        }
        proof {
            lemma_balance_bounds(self.book().records(), who);
            let (bi, ti) = (b as int, total as int);
            assert(0 <= bi * 10000 / ti <= 10000) by (nonlinear_arith)
                requires
                    0 <= bi <= ti,
                    ti > 0,
            ;
        }
        (b * 10000 / total) as u32
    }
}

/// The aggregate equals the sum of all balances: the ledger holds one
/// positive record per participant with a deposit, the balances are those
/// records' amounts, and the aggregate is their sum. Every operation keeps the
/// pool well formed, so this holds between any two calls.
pub proof fn lemma_aggregate_is_sum(pool: PrizePool)
    requires
        pool.wf(),
    ensures
        records_ok(pool.book().records()),
        pool.balances() == balances_of(pool.book().records()),
        pool.aggregate() == sum_amounts(pool.book().records()),
{
}

/// A withdrawal of the whole balance removes the participant's record, and
/// its balance then reads zero, as for one that never deposited.
pub proof fn lemma_full_withdraw_clears(before: PrizePool, after: PrizePool, p: u64)
    requires
        after.balances() == before.balances().remove(p),
    ensures
        !after.balances().dom().contains(p),
        after.balance(p) == 0,
        forall|q: u64| q != p ==> #[trigger] after.balance(q) == before.balance(q),
{
}

/// Draws are gated by the period: before the deadline a draw fails with
/// `PeriodNotFinished`; at or after it, on a well-formed pool with deposits,
/// it may run; and once a draw has completed at `now`, the new period has not
/// finished before `now + period_secs`, so a further draw in that time fails.
pub proof fn lemma_period_gating(pool: PrizePool, next: PrizePool, now: u64, later: u64)
    ensures
        now < pool.deadline() ==> pool.draw_check(now) == Err::<(), PoolError>(
            PoolError::PeriodNotFinished,
        ),
        pool.wf() && now >= pool.deadline() && pool.aggregate() > 0 ==> pool.draw_check(now) is Ok,
        next.drawn_from(&pool, now) && later < now + pool.conf().period_secs ==> next.draw_check(later)
            == Err::<(), PoolError>(PoolError::PeriodNotFinished),
{
}

} // verus!
