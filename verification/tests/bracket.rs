use nba::simulate::{ConferenceBracket, Round};
use nba::types::{Conference, Division, Team};

fn team(name: &str, conference: Conference, wins: u32, loses: u32) -> Team {
    Team {
        name: name.to_string(),
        full_name: format!("Team {name}"),
        conference,
        division: Division::Atlantic,
        elo: 1_000_000_000,
        season_wins: wins,
        season_loses: loses,
    }
}

fn west_seeds() -> Vec<Team> {
    // already ordered by fewest losses, as the bracket expects
    (1..=10).map(|i| team(&format!("T{i}"), Conference::West, 82 - i, i)).collect()
}

#[test]
fn play_in_forced_outcomes() {
    let mut bracket = ConferenceBracket::new("West".to_string(), west_seeds());
    // game 1: seed 7 hosts seed 8 and wins (draw 0);
    // game 2: seed 9 hosts seed 10 and loses (largest draw);
    // game 3: the game-1 loser (seed 8) hosts the game-2 winner (seed 10) and wins
    let (data, _events) = bracket.simulate_play_in(0, 999_999, 0, "");
    assert_eq!(data[0].home, "T7");
    assert_eq!(data[0].away, "T8");
    assert!(data[0].result);
    assert_eq!(data[1].home, "T9");
    assert_eq!(data[1].away, "T10");
    assert!(!data[1].result);
    assert_eq!(data[2].home, "T8");
    assert_eq!(data[2].away, "T10");
    assert!(data[2].result);
    // the final 7-seed is the original seed 7, the 8-seed the original
    // seed 8, and seed 9 is eliminated
    assert_eq!(bracket.teams.len(), 8);
    let names: Vec<&str> = bracket.teams.iter().map(|t| t.name.as_str()).collect();
    assert_eq!(names, ["T1", "T2", "T3", "T4", "T5", "T6", "T7", "T8"]);
}

#[test]
fn play_in_consumes_ten_and_eliminates_two() {
    let mut teams = west_seeds();
    // two extra teams below the cut are dropped before the play-in
    teams.push(team("T11", Conference::West, 70, 12));
    teams.push(team("T12", Conference::West, 69, 13));
    let mut bracket = ConferenceBracket::new("West".to_string(), teams);
    let _ = bracket.simulate_play_in(0, 0, 0, "");
    assert_eq!(bracket.teams.len(), 8);
    for t in &bracket.teams {
        assert_ne!(t.name, "T11");
        assert_ne!(t.name, "T12");
    }
}

#[test]
fn bracket_shape_and_champion() {
    for _ in 0..10 {
        let bracket = ConferenceBracket::new("West".to_string(), west_seeds());
        let (champion, data, _events) = bracket.simulate("");
        // exactly three play-in games, four first-round series, two
        // semifinals and one final
        assert_eq!(data.play_in.len(), 3);
        assert_eq!(data.round_1.len(), 4);
        assert_eq!(data.semifinals.len(), 2);
        for d in data.round_1.iter().chain(data.semifinals.iter()) {
            assert!(
                (d.team_a_wins == 4 && d.team_b_wins <= 3)
                    || (d.team_b_wins == 4 && d.team_a_wins <= 3)
            );
        }
        assert!(data.finals.team_a_wins == 4 || data.finals.team_b_wins == 4);
        // round-1 pairings: 1 v 8, 2 v 7, 3 v 6, 4 v 5, with the 7/8 slots
        // taken from the play-in, and semifinals pairing adjacent winners
        let game_winner =
            |d: &nba::simulate::GameData| if d.result { d.home.clone() } else { d.away.clone() };
        let series_winner = |d: &nba::simulate::RoundData| {
            if d.team_a_wins == 4 { d.team_a.clone() } else { d.team_b.clone() }
        };
        assert_eq!(data.round_1[0].team_a, "T1");
        assert_eq!(data.round_1[0].team_b, game_winner(&data.play_in[2]));
        assert_eq!(data.round_1[1].team_a, "T2");
        assert_eq!(data.round_1[1].team_b, game_winner(&data.play_in[0]));
        assert_eq!(data.round_1[2].team_a, "T3");
        assert_eq!(data.round_1[2].team_b, "T6");
        assert_eq!(data.round_1[3].team_a, "T4");
        assert_eq!(data.round_1[3].team_b, "T5");
        assert_eq!(data.semifinals[0].team_a, series_winner(&data.round_1[0]));
        assert_eq!(data.semifinals[0].team_b, series_winner(&data.round_1[3]));
        assert_eq!(data.semifinals[1].team_a, series_winner(&data.round_1[1]));
        assert_eq!(data.semifinals[1].team_b, series_winner(&data.round_1[2]));
        assert_eq!(data.finals.team_a, series_winner(&data.semifinals[0]));
        assert_eq!(data.finals.team_b, series_winner(&data.semifinals[1]));
        assert_eq!(champion.name, series_winner(&data.finals));
        // the champion is one of the ten seeds, with its record untouched
        let seeds = west_seeds();
        let source = seeds.iter().find(|t| t.name == champion.name).unwrap();
        assert_eq!(champion.season_wins, source.season_wins);
        assert_eq!(champion.season_loses, source.season_loses);
    }
}

#[test]
fn championship_round_runs_between_conference_champions() {
    let a = team("WST", Conference::West, 60, 22);
    let b = team("EST", Conference::East, 58, 24);
    let finals = Round::new("Finals".to_string(), a, b);
    let (winner, data, _) = finals.simulate("*");
    assert!(winner.name == "WST" || winner.name == "EST");
    assert!(data.team_a_wins == 4 || data.team_b_wins == 4);
}
