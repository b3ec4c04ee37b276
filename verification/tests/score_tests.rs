use game_score::AccountId;
use game_score::Error;
use game_score::GameScore;

fn owner() -> AccountId {
    AccountId(1)
}

fn alice() -> AccountId {
    AccountId(2)
}

fn bob() -> AccountId {
    AccountId(3)
}

fn charlie() -> AccountId {
    AccountId(4)
}

#[test]
fn test_new() {
    let game_score = GameScore::new(owner());
    assert_eq!(game_score.get_ranking(owner()).unwrap(), Vec::new());
}

#[test]
fn test_update_score() {
    let mut game_score = GameScore::new(owner());

    assert_eq!(game_score.update_score(owner(), alice(), 100), Ok(()));
    assert_eq!(game_score.get_score(owner(), alice()), Ok(Some(100)));

    assert_eq!(
        game_score.update_score(bob(), bob(), 200),
        Err(Error::NotAuthorized)
    );
}

#[test]
fn test_ranking() {
    let mut game_score = GameScore::new(owner());

    assert_eq!(game_score.update_score(owner(), alice(), 100), Ok(()));
    assert_eq!(game_score.update_score(owner(), bob(), 200), Ok(()));
    assert_eq!(game_score.update_score(owner(), charlie(), 150), Ok(()));

    let ranking = game_score.get_ranking(owner()).unwrap();
    assert_eq!(ranking.len(), 3);
    assert_eq!(ranking[0], (bob(), 200));
    assert_eq!(ranking[1], (charlie(), 150));
    assert_eq!(ranking[2], (alice(), 100));
}

#[test]
fn test_update_existing_score() {
    let mut game_score = GameScore::new(owner());

    assert_eq!(game_score.update_score(owner(), alice(), 100), Ok(()));
    assert_eq!(game_score.update_score(owner(), alice(), 150), Ok(()));

    assert_eq!(game_score.get_score(owner(), alice()), Ok(Some(150)));
    assert_eq!(
        game_score.get_ranking(owner()).unwrap(),
        vec![(alice(), 150)]
    );
}

#[test]
fn test_permissions() {
    let mut game_score = GameScore::new(owner());

    assert_eq!(
        game_score.update_score(bob(), alice(), 100),
        Err(Error::NotAuthorized)
    );
    assert_eq!(game_score.get_score(bob(), alice()), Err(Error::NotAuthorized));
    assert_eq!(game_score.get_ranking(bob()), Err(Error::NotAuthorized));
}

#[test]
fn test_missing_score_is_none() {
    let mut game_score = GameScore::new(owner());
    assert_eq!(game_score.get_score(owner(), alice()), Ok(None));
    assert_eq!(game_score.update_score(owner(), alice(), 0), Ok(()));
    // a score of zero is a recorded score, distinct from "no score"
    assert_eq!(game_score.get_score(owner(), alice()), Ok(Some(0)));
    assert_eq!(game_score.get_score(owner(), bob()), Ok(None));
}

#[test]
fn test_unauthorized_update_leaves_state_unchanged() {
    let mut game_score = GameScore::new(owner());
    assert_eq!(game_score.update_score(owner(), alice(), 100), Ok(()));
    assert_eq!(game_score.update_score(owner(), bob(), 200), Ok(()));
    let before = game_score.get_ranking(owner()).unwrap();

    assert_eq!(
        game_score.update_score(charlie(), charlie(), 999),
        Err(Error::NotAuthorized)
    );

    assert_eq!(game_score.get_ranking(owner()).unwrap(), before);
    assert_eq!(game_score.get_score(owner(), alice()), Ok(Some(100)));
    assert_eq!(game_score.get_score(owner(), charlie()), Ok(None));
}

#[test]
fn test_reset_same_score_is_idempotent() {
    let mut game_score = GameScore::new(owner());
    assert_eq!(game_score.update_score(owner(), alice(), 100), Ok(()));
    assert_eq!(game_score.update_score(owner(), bob(), 100), Ok(()));
    assert_eq!(game_score.update_score(owner(), charlie(), 150), Ok(()));
    let once = game_score.get_ranking(owner()).unwrap();

    assert_eq!(game_score.update_score(owner(), charlie(), 150), Ok(()));
    assert_eq!(game_score.get_ranking(owner()).unwrap(), once);
}

#[test]
fn test_equal_scores_keep_order() {
    let mut game_score = GameScore::new(owner());
    assert_eq!(game_score.update_score(owner(), alice(), 100), Ok(()));
    assert_eq!(game_score.update_score(owner(), bob(), 100), Ok(()));
    assert_eq!(game_score.update_score(owner(), charlie(), 100), Ok(()));

    // incumbents keep their order among equal scores
    assert_eq!(
        game_score.get_ranking(owner()).unwrap(),
        vec![(alice(), 100), (bob(), 100), (charlie(), 100)]
    );

    // the most recently re-scored participant goes after its equals
    assert_eq!(game_score.update_score(owner(), alice(), 100), Ok(()));
    assert_eq!(
        game_score.get_ranking(owner()).unwrap(),
        vec![(bob(), 100), (charlie(), 100), (alice(), 100)]
    );
}
