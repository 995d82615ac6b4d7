use hokm::game::hokm::{GameEvent, Hokm};
use hokm::game::player::{Player, PlayerNumber, Team};
use hokm::players::random::RandomPlayer;
use hokm::players::sensible::SensiblePlayer;

// Runs one full game; returns an error if a player makes an illegal move.
fn run_game<PA: Player, PB: Player, PC: Player, PD: Player>(
    pa: &mut PA,
    pb: &mut PB,
    pc: &mut PC,
    pd: &mut PD,
) -> Result<Team, String> {
    let mut g = Hokm::new(PlayerNumber::One);
    loop {
        match g.play(pa, pb, pc, pd) {
            GameEvent::Won(team) => return Ok(team),
            GameEvent::InvalidPlay(p, _) => {
                return Err(format!("player number {:?} played illegally", p))
            }
            _ => {}
        }
    }
}

#[test]
fn player_illegal_moves_1() {
    for _i in 0..100 {
        let r = run_game(
            &mut SensiblePlayer::new(),
            &mut SensiblePlayer::new(),
            &mut SensiblePlayer::new(),
            &mut SensiblePlayer::new(),
        );
        assert!(r.is_ok());
    }
}

#[test]
fn player_illegal_moves_2() {
    for _i in 0..100 {
        let r = run_game(
            &mut RandomPlayer,
            &mut RandomPlayer,
            &mut RandomPlayer,
            &mut SensiblePlayer::new(),
        );
        assert!(r.is_ok());
    }
}

#[test]
fn player_illegal_moves_3() {
    for _i in 0..100 {
        let r = run_game(
            &mut RandomPlayer,
            &mut RandomPlayer,
            &mut RandomPlayer,
            &mut RandomPlayer,
        );
        assert!(r.is_ok());
    }
}

#[test]
fn player_strength() {
    let mut sensible_wins = 0;
    let mut random_wins = 0;
    let n = 10000;
    for _i in 0..n {
        let r = run_game(
            &mut RandomPlayer,
            &mut SensiblePlayer::new(),
            &mut RandomPlayer,
            &mut SensiblePlayer::new(),
        );
        assert!(r.is_ok());
        match r.unwrap() {
            Team::PlayersTwoAndFour => sensible_wins += 1,
            Team::PlayersOneAndThree => random_wins += 1,
        }
    }
    println!("full {} to {}", sensible_wins, random_wins);
    assert!((sensible_wins as f64 / n as f64) > 0.7);
}

#[test]
fn player_strength_half_p2() {
    let mut sensible_wins = 0;
    let mut random_wins = 0;
    let n = 10000;
    for _i in 0..n {
        let r = run_game(
            &mut RandomPlayer,
            &mut SensiblePlayer::new(),
            &mut RandomPlayer,
            &mut RandomPlayer,
        );
        assert!(r.is_ok());
        match r.unwrap() {
            Team::PlayersTwoAndFour => sensible_wins += 1,
            Team::PlayersOneAndThree => random_wins += 1,
        }
    }
    println!("half_p2 {} to {}", sensible_wins, random_wins);
    assert!((sensible_wins as f64 / n as f64) > 0.57);
}

#[test]
fn player_strength_half_p4() {
    let mut sensible_wins = 0;
    let mut random_wins = 0;
    let n = 10000;
    for _i in 0..n {
        let r = run_game(
            &mut RandomPlayer,
            &mut RandomPlayer,
            &mut RandomPlayer,
            &mut SensiblePlayer::new(),
        );
        assert!(r.is_ok());
        match r.unwrap() {
            Team::PlayersTwoAndFour => sensible_wins += 1,
            Team::PlayersOneAndThree => random_wins += 1,
        }
    }
    println!("half_p4 {} to {}", sensible_wins, random_wins);
    assert!((sensible_wins as f64 / n as f64) > 0.59);
}

#[test]
fn player_strength_random() {
    let mut t1_wins = 0;
    let mut t2_wins = 0;
    let n = 10000;
    for _i in 0..n {
        let r = run_game(
            &mut RandomPlayer,
            &mut RandomPlayer,
            &mut RandomPlayer,
            &mut RandomPlayer,
        );
        assert!(r.is_ok());
        match r.unwrap() {
            Team::PlayersTwoAndFour => t1_wins += 1,
            Team::PlayersOneAndThree => t2_wins += 1,
        }
    }
    println!("random {} to {}", t1_wins, t2_wins);
    assert!((t1_wins as f64 / n as f64) > 0.48);
    assert!((t2_wins as f64 / n as f64) > 0.48);
}
