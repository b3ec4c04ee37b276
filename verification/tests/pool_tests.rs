use game_score::AccountId;
use game_score::Error;
use game_score::StakedPool;

fn controller() -> AccountId {
    AccountId(1)
}

fn alice() -> AccountId {
    AccountId(2)
}

fn bob() -> AccountId {
    AccountId(3)
}

fn charlie() -> AccountId {
    AccountId(4)
}

#[test]
fn test_pool_new() {
    let pool = StakedPool::new(controller());
    assert_eq!(pool.balance(), 0);
    assert!(!pool.is_active());
    assert!(pool.participants().is_empty());
}

#[test]
fn test_pool_round_lifecycle() {
    let mut pool = StakedPool::new(controller());

    assert_eq!(pool.join(alice(), 100, true), Ok(()));
    assert_eq!(pool.join(bob(), 200, true), Ok(()));
    assert_eq!(pool.balance(), 300);
    assert_eq!(pool.participants(), &vec![alice(), bob()]);

    assert_eq!(pool.start_game(controller()), Ok(()));
    assert!(pool.is_active());

    // no further joins while the round runs
    assert_eq!(
        pool.join(charlie(), 50, true),
        Err(Error::GameAlreadyActive)
    );

    assert_eq!(pool.reward_amount(), 240);
    assert_eq!(pool.end_game(controller(), bob(), true), Ok(()));
    assert_eq!(pool.balance(), 60);
    assert!(pool.participants().is_empty());
    assert!(!pool.is_active());
}

#[test]
fn test_join_twice_refused() {
    let mut pool = StakedPool::new(controller());
    assert_eq!(pool.join(alice(), 100, true), Ok(()));
    assert_eq!(pool.join(alice(), 50, true), Err(Error::PlayerAlreadyJoined));
    assert_eq!(pool.balance(), 100);
    assert_eq!(pool.participants(), &vec![alice()]);
}

#[test]
fn test_join_transfer_failure_is_atomic() {
    let mut pool = StakedPool::new(controller());
    assert_eq!(pool.join(alice(), 100, true), Ok(()));

    assert_eq!(pool.join(bob(), 200, false), Err(Error::TransferFailed));
    assert_eq!(pool.balance(), 100);
    assert_eq!(pool.participants(), &vec![alice()]);
    assert!(!pool.is_active());
}

#[test]
fn test_end_transfer_failure_is_atomic() {
    let mut pool = StakedPool::new(controller());
    assert_eq!(pool.join(alice(), 100, true), Ok(()));
    assert_eq!(pool.start_game(controller()), Ok(()));

    assert_eq!(
        pool.end_game(controller(), alice(), false),
        Err(Error::TransferFailed)
    );
    // the round stays active, the pool keeps its balance and participants
    assert!(pool.is_active());
    assert_eq!(pool.balance(), 100);
    assert_eq!(pool.participants(), &vec![alice()]);
}

#[test]
fn test_start_requires_controller() {
    let mut pool = StakedPool::new(controller());
    assert_eq!(pool.join(alice(), 100, true), Ok(()));

    assert_eq!(pool.start_game(alice()), Err(Error::NotAuthorized));
    assert!(!pool.is_active());
    assert_eq!(pool.balance(), 100);
    assert_eq!(pool.participants(), &vec![alice()]);
}

#[test]
fn test_start_twice_refused() {
    let mut pool = StakedPool::new(controller());
    assert_eq!(pool.start_game(controller()), Ok(()));
    assert_eq!(pool.start_game(controller()), Err(Error::GameAlreadyActive));
    assert!(pool.is_active());
}

#[test]
fn test_end_requires_controller_and_active_round() {
    let mut pool = StakedPool::new(controller());
    assert_eq!(pool.join(alice(), 100, true), Ok(()));

    assert_eq!(
        pool.end_game(controller(), alice(), true),
        Err(Error::GameNotActive)
    );
    assert_eq!(pool.start_game(controller()), Ok(()));
    assert_eq!(
        pool.end_game(bob(), bob(), true),
        Err(Error::NotAuthorized)
    );
    assert!(pool.is_active());
    assert_eq!(pool.balance(), 100);
}

#[test]
fn test_payout_split_rounds_down() {
    let mut pool = StakedPool::new(controller());
    assert_eq!(pool.join(alice(), 101, true), Ok(()));
    assert_eq!(pool.start_game(controller()), Ok(()));

    // floor(101 * 80 / 100) = 80, so 21 stays with the pool
    assert_eq!(pool.reward_amount(), 80);
    assert_eq!(pool.end_game(controller(), alice(), true), Ok(()));
    assert_eq!(pool.balance(), 21);
}

#[test]
fn test_payout_split_at_largest_balance() {
    let mut pool = StakedPool::new(controller());
    assert_eq!(pool.join(alice(), u128::MAX, true), Ok(()));
    assert_eq!(pool.start_game(controller()), Ok(()));

    // floor((2^128 - 1) * 80 / 100), computed without overflow
    let reward: u128 = 272225893536750770770699685945414569164;
    assert_eq!(pool.reward_amount(), reward);
    assert_eq!(pool.end_game(controller(), alice(), true), Ok(()));
    assert_eq!(pool.balance(), u128::MAX - reward);
}

#[test]
fn test_residual_balance_carries_into_next_round() {
    let mut pool = StakedPool::new(controller());
    assert_eq!(pool.join(alice(), 100, true), Ok(()));
    assert_eq!(pool.start_game(controller()), Ok(()));
    assert_eq!(pool.end_game(controller(), alice(), true), Ok(()));
    assert_eq!(pool.balance(), 20);

    // the operator's share stays in custody; a new round accrues on top
    assert_eq!(pool.join(alice(), 80, true), Ok(()));
    assert_eq!(pool.balance(), 100);
    assert_eq!(pool.participants(), &vec![alice()]);
}
