use prize_pool::commit::CommitRecord;
use prize_pool::{DrawResult, PoolError, PrizePool, UserDeposit};
use soroban_sdk::{Bytes, Env};

const ADMIN: u64 = 1;
const TOKEN: u64 = 2;
const U1: u64 = 10;
const U2: u64 = 20;
const START: u64 = 1_000;

fn new_pool() -> PrizePool {
    PrizePool::init(ADMIN, TOKEN, 3600, 500, START)
}

fn digest(env: &Env, data: &[u8]) -> Vec<u8> {
    env.crypto().sha256(&Bytes::from_slice(env, data)).to_array().to_vec()
}

#[test]
fn test_init() {
    let pool = new_pool();
    let config = pool.get_config();
    assert_eq!(config.admin, ADMIN);
    assert_eq!(config.token, TOKEN);
    assert_eq!(config.period_secs, 3600);
    assert_eq!(config.apr_bps, 500);
    assert_eq!(config.created_at, START);
}

#[test]
fn test_get_balance_zero() {
    let pool = new_pool();
    let balance = pool.get_balance(U1);
    assert_eq!(balance, 0);
}

#[test]
fn test_get_total_deposited() {
    let pool = new_pool();
    let total = pool.get_total_deposited();
    assert_eq!(total, 0);
}

#[test]
fn test_time_remaining() {
    let pool = new_pool();
    let time_remaining = pool.get_time_remaining(START);
    assert!(time_remaining > 0);
    assert!(time_remaining <= 3600);
    assert_eq!(time_remaining, 3600);
    assert_eq!(pool.get_time_remaining(START + 600), 3000);
    assert_eq!(pool.get_time_remaining(START + 3600), 0);
    assert_eq!(pool.get_time_remaining(START + 9999), 0);
}

#[test]
fn deposits_accumulate_into_aggregate() {
    let mut pool = new_pool();
    assert_eq!(pool.deposit(U1, 100, START, true), Ok(()));
    assert_eq!(pool.deposit(U2, 50, START, true), Ok(()));
    assert_eq!(pool.deposit(U1, 25, START + 1, true), Ok(()));
    assert_eq!(pool.get_balance(U1), 125);
    assert_eq!(pool.get_balance(U2), 50);
    assert_eq!(pool.get_total_deposited(), 175);
    assert_eq!(pool.withdraw(U1, 100, true), Ok(()));
    assert_eq!(pool.get_total_deposited(), pool.get_balance(U1) + pool.get_balance(U2));
    assert_eq!(pool.get_total_deposited(), 75);
}

#[test]
fn deposit_rejects_non_positive_amounts() {
    let mut pool = new_pool();
    assert_eq!(pool.deposit(U1, 0, START, true), Err(PoolError::InvalidAmount));
    assert_eq!(pool.deposit(U1, -5, START, true), Err(PoolError::InvalidAmount));
    assert_eq!(pool.get_total_deposited(), 0);
}

#[test]
fn failed_deposit_transfer_leaves_ledger_alone() {
    let mut pool = new_pool();
    assert_eq!(pool.deposit(U1, 100, START, false), Err(PoolError::TransferFailed));
    assert_eq!(pool.get_balance(U1), 0);
    assert_eq!(pool.get_total_deposited(), 0);
}

#[test]
fn full_withdraw_removes_record() {
    let mut pool = new_pool();
    pool.deposit(U1, 100, START, true).unwrap();
    assert_eq!(pool.withdraw(U1, 100, true), Ok(()));
    assert_eq!(pool.get_balance(U1), 0);
    assert_eq!(pool.get_total_deposited(), 0);
    assert_eq!(pool.withdraw(U1, 1, true), Err(PoolError::NoDeposit));
}

#[test]
fn over_withdraw_is_refused_and_ledger_unchanged() {
    let mut pool = new_pool();
    pool.deposit(U1, 100, START, true).unwrap();
    assert_eq!(pool.check_withdraw(U1, 150), Err(PoolError::InsufficientBalance));
    assert_eq!(pool.withdraw(U1, 150, true), Err(PoolError::InsufficientBalance));
    assert_eq!(pool.get_balance(U1), 100);
    assert_eq!(pool.get_total_deposited(), 100);
}

#[test]
fn withdraw_errors() {
    let mut pool = new_pool();
    assert_eq!(pool.withdraw(U1, 0, true), Err(PoolError::InvalidAmount));
    assert_eq!(pool.withdraw(U1, 10, true), Err(PoolError::NoDeposit));
    pool.deposit(U1, 100, START, true).unwrap();
    assert_eq!(pool.withdraw(U1, 40, false), Err(PoolError::TransferFailed));
    assert_eq!(pool.get_balance(U1), 100);
    assert_eq!(pool.withdraw(U1, 40, true), Ok(()));
    assert_eq!(pool.get_balance(U1), 60);
}

#[test]
fn reveal_checks_the_digest() {
    let env = Env::default();
    let mut pool = new_pool();
    pool.commit_seed(U1, digest(&env, b"secret"));
    assert_eq!(pool.reveal_seed(&env, U1, b"guess".to_vec()), Err(PoolError::InvalidReveal));
    assert_eq!(pool.reveal_seed(&env, U1, b"secret".to_vec()), Ok(()));
    assert_eq!(pool.reveal_seed(&env, U1, b"secret".to_vec()), Err(PoolError::NoCommitment));
}

#[test]
fn reveal_refuses_the_preimage_as_its_own_hash() {
    let env = Env::default();
    let mut pool = new_pool();
    pool.commit_seed(U1, b"plain".to_vec());
    assert_eq!(pool.reveal_seed(&env, U1, b"plain".to_vec()), Err(PoolError::InvalidReveal));
}

#[test]
fn reveal_matches_known_sha256() {
    let env = Env::default();
    let mut pool = new_pool();
    let abc = vec![
        0xba, 0x78, 0x16, 0xbf, 0x8f, 0x01, 0xcf, 0xea, 0x41, 0x41, 0x40, 0xde, 0x5d, 0xae, 0x22,
        0x23, 0xb0, 0x03, 0x61, 0xa3, 0x96, 0x17, 0x7a, 0x9c, 0xb4, 0x10, 0xff, 0x61, 0xf2, 0x00,
        0x15, 0xad,
    ];
    pool.commit_seed(U2, abc);
    assert_eq!(pool.reveal_seed(&env, U2, b"abc".to_vec()), Ok(()));
}

#[test]
fn reveal_errors() {
    let env = Env::default();
    let mut pool = new_pool();
    assert_eq!(pool.reveal_seed(&env, U1, b"x".to_vec()), Err(PoolError::NoCommitment));
    pool.commit_seed(U1, digest(&env, b""));
    assert_eq!(pool.reveal_seed(&env, U1, Vec::new()), Err(PoolError::EmptyPreimage));
    let d = vec![7u8; 32];
    pool.commit_seed(U1, d.clone());
    assert_eq!(pool.reveal_seed_with_digest(U1, b"y".to_vec(), &vec![8u8; 32]), Err(PoolError::InvalidReveal));
    assert_eq!(pool.reveal_seed_with_digest(U1, b"y".to_vec(), &d), Ok(()));
}

#[test]
fn recommit_replaces_commitment() {
    let env = Env::default();
    let mut pool = new_pool();
    pool.commit_seed(U1, digest(&env, b"first"));
    pool.commit_seed(U1, digest(&env, b"second"));
    assert_eq!(pool.reveal_seed(&env, U1, b"first".to_vec()), Err(PoolError::InvalidReveal));
    assert_eq!(pool.reveal_seed(&env, U1, b"second".to_vec()), Ok(()));
}

#[test]
fn draw_before_deadline_fails() {
    let mut pool = new_pool();
    pool.deposit(U1, 1000, START, true).unwrap();
    assert_eq!(pool.draw_with_random(START + 3599, 5, true), Err(PoolError::PeriodNotFinished));
    assert_eq!(pool.get_time_remaining(START + 3599), 1);
}

#[test]
fn draw_on_empty_pool_fails() {
    let mut pool = new_pool();
    assert_eq!(pool.draw_with_random(START + 3600, 5, true), Err(PoolError::EmptyPool));
}

#[test]
fn draw_at_deadline_succeeds_and_second_draw_fails() {
    let mut pool = new_pool();
    pool.deposit(U1, 1000, START, true).unwrap();
    let now = START + 3600;
    let r = pool.draw_with_random(now, 3, true);
    assert_eq!(r, Ok(DrawResult { winner: U1, prize: 50, random: 3 }));
    assert_eq!(pool.draw_with_random(now, 3, true), Err(PoolError::PeriodNotFinished));
    assert_eq!(pool.get_balance(U1), 1000);
}

#[test]
fn failed_prize_transfer_keeps_period() {
    let mut pool = new_pool();
    pool.deposit(U1, 1000, START, true).unwrap();
    let now = START + 4000;
    assert_eq!(pool.draw_with_random(now, 3, false), Err(PoolError::TransferFailed));
    assert_eq!(pool.get_time_remaining(now), 0);
    assert!(pool.draw_with_random(now, 3, true).is_ok());
    assert_eq!(pool.get_time_remaining(now), 3600);
}

#[test]
fn scenario_two_depositors() {
    let mut pool = new_pool();
    pool.deposit(U1, 1000, START, true).unwrap();
    pool.deposit(U2, 3000, START, true).unwrap();
    let now = START + 3600;
    assert_eq!(pool.get_win_probability(U1), 2500);
    assert_eq!(pool.get_win_probability(U2), 7500);
    assert_eq!(pool.plan_draw(now, 999).unwrap().winner, U1);
    assert_eq!(pool.plan_draw(now, 1000).unwrap().winner, U2);
    assert_eq!(pool.plan_draw(now, 4999).unwrap().winner, U1);
    let d = pool.draw_with_random(now, 3999, true).unwrap();
    assert_eq!(d.winner, U2);
    assert_eq!(d.prize, 200);
    assert_eq!(pool.get_time_remaining(now), 3600);
}

#[test]
fn draw_with_host_entropy() {
    let env = Env::default();
    let mut pool = new_pool();
    pool.deposit(U1, 1000, START, true).unwrap();
    pool.deposit(U2, 3000, START, true).unwrap();
    pool.commit_seed(U1, digest(&env, b"u1 seed"));
    pool.reveal_seed(&env, U1, b"u1 seed".to_vec()).unwrap();
    let now = START + 3600;
    let random = pool.draw_random(&env, 42);
    let mut input = vec![0u8, 0, 0, 42];
    input.extend_from_slice(b"u1 seed");
    let d = digest(&env, &input);
    let mut word = [0u8; 8];
    word.copy_from_slice(&d[..8]);
    assert_eq!(random, u64::from_be_bytes(word));
    let r = pool.draw(&env, now, 42, true).unwrap();
    assert_eq!(r.random, random);
    assert_eq!(r.prize, 200);
    let expected = if (random as i128) % 4000 < 1000 { U1 } else { U2 };
    assert_eq!(r.winner, expected);
    assert_eq!(pool.reveal_seed(&env, U1, b"u1 seed".to_vec()), Err(PoolError::NoCommitment));
}

#[test]
fn selection_frequency_matches_shares() {
    let mut pool = new_pool();
    pool.deposit(U2, 3000, START, true).unwrap();
    pool.deposit(U1, 1000, START, true).unwrap();
    let now = START + 3600;
    let mut wins_u1 = 0u64;
    for t in 0..4000u64 {
        if pool.plan_draw(now, t).unwrap().winner == U1 {
            wins_u1 += 1;
        }
    }
    assert_eq!(wins_u1, 1000);
}

#[test]
fn win_probability_of_empty_pool_is_zero() {
    let pool = new_pool();
    assert_eq!(pool.get_win_probability(U1), 0);
}

#[test]
fn restore_round_trip() {
    let mut pool = new_pool();
    pool.deposit(U2, 300, START, true).unwrap();
    pool.deposit(U1, 100, START + 5, true).unwrap();
    pool.commit_seed(U1, vec![1u8; 32]);
    let deposits = pool.deposits().clone();
    assert_eq!(deposits.len(), 2);
    assert_eq!(deposits[0].participant, U1);
    assert_eq!(deposits[0].deposited_at, START + 5);
    assert_eq!(deposits[1].participant, U2);
    let commits: Vec<CommitRecord> = pool
        .commitment_records()
        .iter()
        .map(|c| CommitRecord { participant: c.participant, commitment: c.commitment.clone(), revealed: c.revealed.clone() })
        .collect();
    let back = PrizePool::restore(pool.get_config(), deposits, commits, pool.period_start()).unwrap();
    assert_eq!(back.get_balance(U1), 100);
    assert_eq!(back.get_balance(U2), 300);
    assert_eq!(back.get_total_deposited(), 400);
    assert_eq!(back.period_start(), START);
}

#[test]
fn restore_rejects_malformed_state() {
    let config = new_pool().get_config();
    let d = |participant: u64, amount: i128| UserDeposit { participant, amount, deposited_at: 0 };
    assert!(PrizePool::restore(config, vec![d(U2, 1), d(U1, 1)], Vec::new(), 0).is_none());
    assert!(PrizePool::restore(config, vec![d(U1, 1), d(U1, 1)], Vec::new(), 0).is_none());
    assert!(PrizePool::restore(config, vec![d(U1, 0)], Vec::new(), 0).is_none());
    assert!(PrizePool::restore(config, vec![d(U1, i128::MAX), d(U2, 1)], Vec::new(), 0).is_none());
    let c = |participant: u64| CommitRecord { participant, commitment: vec![0u8; 32], revealed: None };
    assert!(PrizePool::restore(config, Vec::new(), vec![c(U1), c(U1)], 0).is_none());
    assert!(PrizePool::restore(config, vec![d(U1, 5)], vec![c(U1), c(U2)], 0).is_some());
}
