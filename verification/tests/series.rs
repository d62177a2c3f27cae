use nba::simulate::{game_label, series_advantage, switch_for_game, Round};
use nba::types::{Conference, Division, Team};

fn team(name: &str, wins: u32, loses: u32) -> Team {
    Team {
        name: name.to_string(),
        full_name: format!("Team {name}"),
        conference: Conference::West,
        division: Division::Pacific,
        elo: 1_000_000_000,
        season_wins: wins,
        season_loses: loses,
    }
}

#[test]
fn advantage_tie_break_is_deterministic() {
    // two teams locked at equal rating and record: the first team listed
    // keeps home-court advantage, every time
    let a = team("AAA", 41, 41);
    let b = team("BBB", 41, 41);
    for _ in 0..20 {
        assert!(!series_advantage(&a, &b));
    }
    // strictly better record takes it
    assert!(series_advantage(&team("AAA", 40, 42), &team("BBB", 41, 41)));
}

#[test]
fn home_pattern_2_2_1_1_1() {
    for advantage_b in [false, true] {
        for g in [1u32, 2, 5, 7] {
            assert_eq!(switch_for_game(advantage_b, g), advantage_b);
        }
        for g in [3u32, 4, 6] {
            assert_eq!(switch_for_game(advantage_b, g), !advantage_b);
        }
    }
}

#[test]
fn series_terminates_with_one_winner() {
    for _ in 0..25 {
        let round = Round::new("West round 1 (1 vs 8)".to_string(), team("AAA", 50, 32), team("BBB", 45, 37));
        let (winner, data, _events) = round.simulate("");
        assert!(data.team_a_wins + data.team_b_wins <= 7);
        assert!(
            (data.team_a_wins == 4 && data.team_b_wins <= 3)
                || (data.team_b_wins == 4 && data.team_a_wins <= 3)
        );
        if data.team_a_wins == 4 {
            assert_eq!(winner.name, "AAA");
        } else {
            assert_eq!(winner.name, "BBB");
        }
        assert_eq!(data.team_a, "AAA");
        assert_eq!(data.team_b, "BBB");
        // series games never touch the season record
        assert_eq!(winner.season_wins == 50 || winner.season_wins == 45, true);
    }
}

#[test]
fn play_game_forced_outcomes() {
    let mut round = Round::new("Finals".to_string(), team("AAA", 50, 32), team("BBB", 45, 37));
    // draw 0 always falls below the expected score: the home side wins
    let (done, ev) = round.play_game("Finals game 1", false, 0);
    assert!(!done);
    assert!(ev.home_win);
    assert_eq!(ev.home_name, "AAA");
    assert_eq!(round.team_a_wins, 1);
    assert_eq!(round.team_b_wins, 0);
    // the largest draw never falls below it: the home side loses
    let (done, ev) = round.play_game("Finals game 2", false, 999_999);
    assert!(!done);
    assert!(!ev.home_win);
    assert_eq!(round.team_a_wins, 1);
    assert_eq!(round.team_b_wins, 1);
    // switched orientation: team B hosts and wins
    let (_, ev) = round.play_game("Finals game 3", true, 0);
    assert!(ev.home_win);
    assert_eq!(ev.home_name, "BBB");
    assert_eq!(round.team_b_wins, 2);
}

#[test]
fn play_game_zero_sum_rating() {
    let mut round = Round::new("Finals".to_string(), team("AAA", 50, 32), team("BBB", 45, 37));
    let before = round.team_a.elo + round.team_b.elo;
    round.play_game("Finals game 1", false, 0);
    assert_eq!(round.team_a.elo + round.team_b.elo, before);
    assert_eq!(round.team_a.elo, 1_016_000_000);
    assert_eq!(round.team_b.elo, 984_000_000);
}

#[test]
fn game_label_appends_digit() {
    let label = game_label(&"West round 1 game ".to_string(), 3);
    assert_eq!(label, "West round 1 game 3");
}

#[test]
fn round_new_appends_game_suffix() {
    let round = Round::new("Finals".to_string(), team("AAA", 1, 0), team("BBB", 0, 1));
    assert_eq!(round.name, "Finals game ");
    assert_eq!(round.team_a_wins, 0);
    assert_eq!(round.team_b_wins, 0);
}
