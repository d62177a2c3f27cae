use nba::process_data::{process, process_games};
use nba::simulate::{partition, simulate_postseason, simulate_season, sort_by_loses};
use nba::types::{Conference, Division, Game, Team, TeamData};

fn team(name: &str, conference: Conference, elo: i64, wins: u32, loses: u32) -> Team {
    Team {
        name: name.to_string(),
        full_name: format!("Team {name}"),
        conference,
        division: Division::Central,
        elo,
        season_wins: wins,
        season_loses: loses,
    }
}

fn game(date: i64, home: usize, away: usize, hs: u32, aws: u32) -> Game {
    Game { date, home_team_idx: home, away_team_idx: away, home_score: hs, away_score: aws }
}

#[test]
fn record_conservation_over_a_schedule() {
    let mut teams: Vec<Team> = (0..4)
        .map(|i| team(&format!("C{i}"), Conference::West, 1_000_000_000, 0, 0))
        .collect();
    // a small round-robin: every ordered pair plays once
    let mut games = Vec::new();
    for h in 0..4usize {
        for a in 0..4usize {
            if h != a {
                games.push(game(0, h, a, 0, 0));
            }
        }
    }
    let n = games.len() as u32;
    let elo_before: i64 = teams.iter().map(|t| t.elo).sum();
    let _events = simulate_season(&mut teams, &games, "");
    let wins: u32 = teams.iter().map(|t| t.season_wins).sum();
    let loses: u32 = teams.iter().map(|t| t.season_loses).sum();
    assert_eq!(wins, n);
    assert_eq!(loses, n);
    let elo_after: i64 = teams.iter().map(|t| t.elo).sum();
    assert_eq!(elo_after, elo_before);
}

#[test]
fn process_recorded_game_exact_update() {
    let mut teams = vec![
        team("HOM", Conference::West, 1_000_000_000, 0, 0),
        team("AWY", Conference::East, 1_000_000_000, 0, 0),
    ];
    let g = game(17, 0, 1, 104, 99);
    let ev = process(&g, &mut teams, "*").unwrap();
    // equal ratings: expected one half, winner takes 32 * 0.5 = 16 points
    assert_eq!(ev.expected, 500_000);
    assert!(ev.home_win);
    assert_eq!(ev.change, 16_000_000);
    assert_eq!(teams[0].elo, 1_016_000_000);
    assert_eq!(teams[1].elo, 984_000_000);
    // recorded games never touch the season record
    assert_eq!(teams[0].season_wins, 0);
    assert_eq!(teams[1].season_loses, 0);
}

#[test]
fn process_filter_selects_events() {
    let mut teams = vec![
        team("HOM", Conference::West, 1_000_000_000, 0, 0),
        team("AWY", Conference::East, 1_000_000_000, 0, 0),
        team("OTH", Conference::East, 1_000_000_000, 0, 0),
    ];
    let games = vec![game(1, 0, 1, 90, 80), game(2, 1, 2, 77, 80)];
    let events = process_games(&mut teams, &games, "HOM");
    assert_eq!(events.len(), 1);
    assert_eq!(events[0].home_name, "HOM");
    let mut teams2 = vec![
        team("HOM", Conference::West, 1_000_000_000, 0, 0),
        team("AWY", Conference::East, 1_000_000_000, 0, 0),
        team("OTH", Conference::East, 1_000_000_000, 0, 0),
    ];
    let all = process_games(&mut teams2, &games, "*");
    assert_eq!(all.len(), 2);
    let none = process_games(&mut teams2, &games, "");
    assert_eq!(none.len(), 0);
}

#[test]
fn process_games_conserves_rating_mass() {
    let mut teams = vec![
        team("AAA", Conference::West, 1_100_000_000, 0, 0),
        team("BBB", Conference::East, 950_000_000, 0, 0),
        team("CCC", Conference::East, 1_000_000_000, 0, 0),
    ];
    let games = vec![game(1, 0, 1, 90, 80), game(2, 2, 0, 99, 98), game(3, 1, 2, 101, 100)];
    let before: i64 = teams.iter().map(|t| t.elo).sum();
    process_games(&mut teams, &games, "");
    let after: i64 = teams.iter().map(|t| t.elo).sum();
    assert_eq!(before, after);
}

#[test]
fn sort_by_loses_is_stable() {
    let teams = vec![
        team("AAA", Conference::West, 1_000_000_000, 50, 32),
        team("BBB", Conference::West, 1_000_000_000, 60, 22),
        team("CCC", Conference::West, 1_000_000_000, 60, 22),
        team("DDD", Conference::West, 1_000_000_000, 70, 12),
    ];
    let sorted = sort_by_loses(teams);
    let names: Vec<&str> = sorted.iter().map(|t| t.name.as_str()).collect();
    assert_eq!(names, ["DDD", "BBB", "CCC", "AAA"]);
}

#[test]
fn partition_splits_and_seeds() {
    let teams = vec![
        team("W1", Conference::West, 1_000_000_000, 50, 32),
        team("E1", Conference::East, 1_000_000_000, 40, 42),
        team("W2", Conference::West, 1_000_000_000, 60, 22),
        team("E2", Conference::East, 1_000_000_000, 45, 37),
    ];
    let (west, east) = partition(teams);
    let w: Vec<&str> = west.iter().map(|t| t.name.as_str()).collect();
    let e: Vec<&str> = east.iter().map(|t| t.name.as_str()).collect();
    assert_eq!(w, ["W2", "W1"]);
    assert_eq!(e, ["E2", "E1"]);
}

#[test]
fn postseason_produces_a_champion() {
    let mut teams = Vec::new();
    for i in 0..10u32 {
        teams.push(team(&format!("W{i}"), Conference::West, 1_000_000_000, 60 - i, 22 + i));
        teams.push(team(&format!("E{i}"), Conference::East, 1_000_000_000, 55 - i, 27 + i));
    }
    let names: Vec<String> = teams.iter().map(|t| t.name.clone()).collect();
    let (champion, west_data, east_data, finals, _events) = simulate_postseason(teams, "");
    assert!(names.contains(&champion.name));
    assert!(finals.team_a_wins == 4 || finals.team_b_wins == 4);
    assert_eq!(west_data.round_1.len(), 4);
    assert_eq!(east_data.semifinals.len(), 2);
    assert!(finals.team_a.starts_with('W') && finals.team_b.starts_with('E'));
    // the West bracket is named for West teams only
    for d in west_data.play_in.iter() {
        assert!(d.home.starts_with('W') && d.away.starts_with('W'));
    }
}

#[test]
fn valid_team_filter_accepts_known_names() {
    let teams = vec![
        team("LAL", Conference::West, 1_000_000_000, 0, 0),
        team("BOS", Conference::East, 1_000_000_000, 0, 0),
    ];
    assert!(nba::utils::valid_team_filter("", &teams));
    assert!(nba::utils::valid_team_filter("*", &teams));
    assert!(nba::utils::valid_team_filter("LAL", &teams));
    assert!(nba::utils::valid_team_filter("BOS", &teams));
    assert!(!nba::utils::valid_team_filter("MIA", &teams));
    assert!(!nba::utils::valid_team_filter("**", &teams));
}

#[test]
fn team_from_data_starts_at_baseline() {
    let data = TeamData {
        id: 14,
        abbreviation: "LAL".to_string(),
        city: "Los Angeles".to_string(),
        conference: Conference::West,
        division: Division::Pacific,
        full_name: "Los Angeles Lakers".to_string(),
        name: "Lakers".to_string(),
    };
    let t = Team::from_data(data);
    assert_eq!(t.name, "LAL");
    assert_eq!(t.full_name, "Los Angeles Lakers");
    assert_eq!(t.elo, 1_000_000_000);
    assert_eq!(t.season_wins, 0);
    assert_eq!(t.season_loses, 0);
}
