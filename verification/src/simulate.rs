//! Game, series and bracket simulation.
//!
//! A single game outcome is decided by one uniform draw below `PROB_SCALE`:
//! the home side wins when the draw falls below its expected score. A
//! best-of-seven series repeats such games with the 2-2-1-1-1 home pattern
//! until one side reaches four wins. A conference bracket runs a play-in
//! among seeds seven to ten, then three elimination rounds; two conference
//! champions meet in a final championship series.

use vstd::prelude::*;

use crate::types::{
    conf_count, lemma_sum_elo_update, lemma_sum_loses_update, lemma_sum_wins_update, sum_elo,
    sum_loses, sum_wins, GameEvent, Team,
};
use crate::utils::{
    elo_ok, expected, expected_spec, filter_matches, is_wildcard, lemma_change_bounded,
    lemma_elo_ok_mono, rating_change, update, MAX_SHIFT, PROB_SCALE,
};

verus! {

use vstd::string::StringExecFns;

/// Relies on `rand::Rng::gen_range` on the thread-local generator from
/// `rand::thread_rng`: a fresh, independent draw uniform in `[0, bound)`.
/// Nothing but the bound can be promised of a random value.
#[verifier::external_body]
fn random_below(bound: u64) -> (r: u64)
    requires
        1 <= bound,
    ensures
        r < bound,
{
    rand::Rng::gen_range(&mut rand::thread_rng(), 0..bound)
}

/// Whether the home side wins a simulated game, given the uniform draw:
/// it wins exactly when the draw falls below its expected score.
pub open spec fn game_outcome(home_elo: int, away_elo: int, draw: int) -> bool {
    draw < expected_spec(home_elo, away_elo)
}

/// The home team after one game: its rating moves by the rating change,
/// and in season mode the record gains a win or a loss.
pub open spec fn after_game_home(home: Team, away: Team, win: bool, count: bool) -> Team {
    Team {
        name: home.name,
        full_name: home.full_name,
        conference: home.conference,
        division: home.division,
        elo: (home.elo + rating_change(home.elo as int, away.elo as int, win)) as i64,
        season_wins: if count && win {
            (home.season_wins + 1) as u32
        } else {
            home.season_wins
        },
        season_loses: if count && !win {
            (home.season_loses + 1) as u32
        } else {
            home.season_loses
        },
    }
}

/// The away team after one game: the mirror image of the home update.
pub open spec fn after_game_away(home: Team, away: Team, win: bool, count: bool) -> Team {
    Team {
        name: away.name,
        full_name: away.full_name,
        conference: away.conference,
        division: away.division,
        elo: (away.elo - rating_change(home.elo as int, away.elo as int, win)) as i64,
        season_wins: if count && !win {
            (away.season_wins + 1) as u32
        } else {
            away.season_wins
        },
        season_loses: if count && win {
            (away.season_loses + 1) as u32
        } else {
            away.season_loses
        },
    }
}

/// Two team values carry the same identity and classification.
pub open spec fn same_identity(t: Team, u: Team) -> bool {
    t.name == u.name && t.full_name == u.full_name && t.conference == u.conference && t.division
        == u.division
}

/// Two team values carry the same season record.
pub open spec fn same_record(t: Team, u: Team) -> bool {
    t.season_wins == u.season_wins && t.season_loses == u.season_loses
}

/// Apply one decided game outcome to both teams and build the reporting
/// event. `win` is true when the home side won.
pub fn game_update(label: &str, home: &mut Team, away: &mut Team, win: bool, count_wins: bool) -> (ev:
    GameEvent)
    requires
        elo_ok(old(home).elo as int, 1),
        elo_ok(old(away).elo as int, 1),
        count_wins ==> old(home).season_wins < u32::MAX && old(away).season_wins < u32::MAX
            && old(home).season_loses < u32::MAX && old(away).season_loses < u32::MAX,
    ensures
        *final(home) == after_game_home(*old(home), *old(away), win, count_wins),
        *final(away) == after_game_away(*old(home), *old(away), win, count_wins),
        elo_ok(final(home).elo as int, 0),
        elo_ok(final(away).elo as int, 0),
        ev.label@ == label@,
        ev.home_name == old(home).name,
        ev.away_name == old(away).name,
        ev.home_win == win,
        ev.expected == expected_spec(old(home).elo as int, old(away).elo as int),
        ev.change == rating_change(old(home).elo as int, old(away).elo as int, win),
        ev.home_old == old(home).elo,
        ev.away_old == old(away).elo,
        ev.home_new == final(home).elo,
        ev.away_new == final(away).elo,
{
    proof {
        lemma_change_bounded(home.elo as int, away.elo as int, win);
    }
    let p = expected(home.elo, away.elo);
    let (nh, na, change) = update(home.elo, away.elo, win);
    let ev = GameEvent {
        label: label.to_owned(),
        home_name: home.name.clone(),
        away_name: away.name.clone(),
        home_win: win,
        expected: p,
        change: change,
        home_old: home.elo,
        home_new: nh,
        away_old: away.elo,
        away_new: na,
    };
    home.elo = nh;
    away.elo = na;
    if count_wins {
        if win {
            home.season_wins = home.season_wins + 1;
            away.season_loses = away.season_loses + 1;
        } else {
            home.season_loses = home.season_loses + 1;
            away.season_wins = away.season_wins + 1;
        }
    }
    ev
}

/// Simulate one game between the two teams from a uniform draw, applying
/// the rating update in place. Returns whether the home side won, and the
/// reporting event.
pub fn simulate_from_teams(
    label: &str,
    home: &mut Team,
    away: &mut Team,
    count_wins: bool,
    draw: u64,
) -> (r: (bool, GameEvent))
    requires
        draw < PROB_SCALE,
        elo_ok(old(home).elo as int, 1),
        elo_ok(old(away).elo as int, 1),
        count_wins ==> old(home).season_wins < u32::MAX && old(away).season_wins < u32::MAX
            && old(home).season_loses < u32::MAX && old(away).season_loses < u32::MAX,
    ensures
        r.0 == game_outcome(old(home).elo as int, old(away).elo as int, draw as int),
        *final(home) == after_game_home(*old(home), *old(away), r.0, count_wins),
        *final(away) == after_game_away(*old(home), *old(away), r.0, count_wins),
        elo_ok(final(home).elo as int, 0),
        elo_ok(final(away).elo as int, 0),
        r.1.label@ == label@,
        r.1.home_name == old(home).name,
        r.1.away_name == old(away).name,
        r.1.home_win == r.0,
        r.1.expected == expected_spec(old(home).elo as int, old(away).elo as int),
        r.1.change == rating_change(old(home).elo as int, old(away).elo as int, r.0),
        r.1.home_old == old(home).elo,
        r.1.away_old == old(away).elo,
        r.1.home_new == final(home).elo,
        r.1.away_new == final(away).elo,
{
    let p = expected(home.elo, away.elo);
    let win = draw < p;
    let ev = game_update(label, home, away, win, count_wins);
    (win, ev)
}

/// A game's team indices point into a store of `n` teams, at two distinct
/// slots.
pub open spec fn game_indices_ok(g: crate::types::Game, n: int) -> bool {
    g.home_team_idx < n && g.away_team_idx < n && g.home_team_idx != g.away_team_idx
}

/// Simulate one game between the teams at the two store indices, applying
/// the update in place.
pub fn simulate_game_at(
    teams: &mut Vec<Team>,
    h: usize,
    a: usize,
    label: &str,
    count_wins: bool,
    draw: u64,
) -> (r: (bool, GameEvent))
    requires
        h < old(teams)@.len(),
        a < old(teams)@.len(),
        h != a,
        draw < PROB_SCALE,
        elo_ok(old(teams)@[h as int].elo as int, 1),
        elo_ok(old(teams)@[a as int].elo as int, 1),
        count_wins ==> old(teams)@[h as int].season_wins < u32::MAX && old(
            teams,
        )@[a as int].season_wins < u32::MAX && old(teams)@[h as int].season_loses < u32::MAX && old(
            teams,
        )@[a as int].season_loses < u32::MAX,
    ensures
        ({
            let home0 = old(teams)@[h as int];
            let away0 = old(teams)@[a as int];
            let win = game_outcome(home0.elo as int, away0.elo as int, draw as int);
            &&& r.0 == win
            &&& final(teams)@ == old(teams)@.update(
                h as int,
                after_game_home(home0, away0, win, count_wins),
            ).update(a as int, after_game_away(home0, away0, win, count_wins))
            &&& r.1.home_name == home0.name
            &&& r.1.away_name == away0.name
            &&& r.1.home_win == win
            &&& r.1.expected == expected_spec(home0.elo as int, away0.elo as int)
            &&& r.1.label@ == label@
        }),
{
    let mut home = teams[h].duplicate();
    let mut away = teams[a].duplicate();
    let (win, ev) = simulate_from_teams(label, &mut home, &mut away, count_wins, draw);
    teams[h] = home;
    teams[a] = away;
    (win, ev)
}

/// Simulate every remaining regular-season game in order, in season mode:
/// ratings move by the usual update and the winner and loser of each game
/// gain one win and one loss. Rating mass is conserved, and the win and
/// loss totals each grow by exactly the number of games played.
pub fn simulate_season(teams: &mut Vec<Team>, games: &Vec<crate::types::Game>, filter: &str) -> (events: Vec<
    GameEvent,
>)
    requires
        forall|k: int|
            0 <= k < games@.len() ==> game_indices_ok(#[trigger] games@[k], old(teams)@.len() as int),
        forall|i: int|
            0 <= i < old(teams)@.len() ==> elo_ok(
                #[trigger] old(teams)@[i].elo as int,
                games@.len() as int,
            ),
        forall|i: int|
            0 <= i < old(teams)@.len() ==> (#[trigger] old(teams)@[i].season_wins) + games@.len()
                <= u32::MAX && old(teams)@[i].season_loses + games@.len() <= u32::MAX,
    ensures
        final(teams)@.len() == old(teams)@.len(),
        forall|i: int|
            0 <= i < old(teams)@.len() ==> same_identity(#[trigger] final(teams)@[i], old(teams)@[i]),
        sum_elo(final(teams)@) == sum_elo(old(teams)@),
        sum_wins(final(teams)@) == sum_wins(old(teams)@) + games@.len(),
        sum_loses(final(teams)@) == sum_loses(old(teams)@) + games@.len(),
        forall|i: int|
            0 <= i < old(teams)@.len() ==> elo_ok(#[trigger] final(teams)@[i].elo as int, 0),
{
    let ghost orig = old(teams)@;
    let ghost n = games@.len() as int;
    let mut events: Vec<GameEvent> = Vec::new();
    let mut k: usize = 0;
    while k < games.len()
        invariant
            0 <= k <= games@.len(),
            n == games@.len(),
            teams@.len() == orig.len(),
            forall|j: int| 0 <= j < n ==> game_indices_ok(#[trigger] games@[j], orig.len() as int),
            forall|i: int| 0 <= i < orig.len() ==> same_identity(#[trigger] teams@[i], orig[i]),
            sum_elo(teams@) == sum_elo(orig),
            sum_wins(teams@) == sum_wins(orig) + k,
            sum_loses(teams@) == sum_loses(orig) + k,
            forall|i: int| 0 <= i < orig.len() ==> elo_ok(#[trigger] teams@[i].elo as int, n - k),
            forall|i: int|
                0 <= i < orig.len() ==> (#[trigger] teams@[i].season_wins) + (n - k) <= u32::MAX
                    && teams@[i].season_loses + (n - k) <= u32::MAX,
        decreases games@.len() - k,
    {
        let h = games[k].home_team_idx;
        let a = games[k].away_team_idx;
        let draw = random_below(1_000_000);
        let ghost pre = teams@;
        let (win, ev) = simulate_game_at(teams, h, a, "", true, draw);
        proof {
            let home0 = pre[h as int];
            let away0 = pre[a as int];
            let w = game_outcome(home0.elo as int, away0.elo as int, draw as int);
            lemma_change_bounded(home0.elo as int, away0.elo as int, w);
            let nh = after_game_home(home0, away0, w, true);
            let na = after_game_away(home0, away0, w, true);
            lemma_sum_elo_update(pre, h as int, nh);
            lemma_sum_elo_update(pre.update(h as int, nh), a as int, na);
            lemma_sum_wins_update(pre, h as int, nh);
            lemma_sum_wins_update(pre.update(h as int, nh), a as int, na);
            lemma_sum_loses_update(pre, h as int, nh);
            lemma_sum_loses_update(pre.update(h as int, nh), a as int, na);
            assert forall|i: int| 0 <= i < orig.len() implies elo_ok(
                #[trigger] teams@[i].elo as int,
                n - k - 1,
            ) by {
                if i != h as int && i != a as int {
                    lemma_elo_ok_mono(teams@[i].elo as int, n - k, n - k - 1);
                }
            }
        }
        if filter_matches(filter, &ev.home_name, &ev.away_name) {
            events.push(ev);
        }
        k = k + 1;
    }
    events
}

/// Snapshot of one decided play-in game: both labels and whether the home
/// side won.
#[derive(Debug, Clone)]
pub struct GameData {
    pub home: String,
    pub away: String,
    pub result: bool,
}

/// Simulate one game between two owned teams and hand back winner first,
/// loser second, with the game snapshot and the reporting event.
pub fn simulate_with_info(label: &str, home: Team, away: Team, draw: u64) -> (r: (
    Team,
    Team,
    GameData,
    GameEvent,
))
    requires
        draw < PROB_SCALE,
        elo_ok(home.elo as int, 1),
        elo_ok(away.elo as int, 1),
    ensures
        ({
            let win = game_outcome(home.elo as int, away.elo as int, draw as int);
            let nh = after_game_home(home, away, win, false);
            let na = after_game_away(home, away, win, false);
            &&& r.0 == (if win {
                nh
            } else {
                na
            })
            &&& r.1 == (if win {
                na
            } else {
                nh
            })
            &&& r.2.home == home.name
            &&& r.2.away == away.name
            &&& r.2.result == win
            &&& r.3.home_win == win
            &&& elo_ok(r.0.elo as int, 0)
            &&& elo_ok(r.1.elo as int, 0)
        }),
{
    let mut h = home;
    let mut a = away;
    let (win, ev) = simulate_from_teams(label, &mut h, &mut a, false, draw);
    let data = GameData { home: ev.home_name.clone(), away: ev.away_name.clone(), result: win };
    if win {
        (h, a, data, ev)
    } else {
        (a, h, data, ev)
    }
}

/// Whether a game number has its home side flipped relative to games one
/// and two: the 2-2-1-1-1 pattern flips games three, four and six.
pub open spec fn home_flip(game: int) -> bool {
    game == 3 || game == 4 || game == 6
}

/// Which side hosts a given game of a series: the disadvantaged side (the
/// switched orientation) exactly when the pattern flips the advantage.
pub open spec fn series_switch(advantage_b: bool, game: int) -> bool {
    advantage_b != home_flip(game)
}

/// The 2-2-1-1-1 home-court pattern: whichever side holds the advantage
/// hosts games one, two, five and seven, and the other side hosts games
/// three, four and six.
pub proof fn lemma_home_pattern(advantage_b: bool)
    ensures
        forall|g: int|
            g == 1 || g == 2 || g == 5 || g == 7 ==> #[trigger] series_switch(advantage_b, g)
                == advantage_b,
        forall|g: int|
            g == 3 || g == 4 || g == 6 ==> #[trigger] series_switch(advantage_b, g) == !advantage_b,
{
}

/// Series home-court advantage, by the seeding measure: the second team
/// holds it exactly when it has strictly fewer season losses; on a tie the
/// first team keeps it, so the tie-break is deterministic in the input
/// order.
pub open spec fn advantage_spec(a: Team, b: Team) -> bool {
    b.season_loses < a.season_loses
}

pub fn series_advantage(a: &Team, b: &Team) -> (r: bool)
    ensures
        r == advantage_spec(*a, *b),
{
    b.season_loses < a.season_loses
}

/// Which rating the series' first team carried into the event, given the
/// game's orientation (with `switch` the second team hosts).
pub open spec fn side_a_old(ev: GameEvent, switch: bool) -> int {
    if switch {
        ev.away_old as int
    } else {
        ev.home_old as int
    }
}

/// Which rating the series' first team carried out of the event.
pub open spec fn side_a_new(ev: GameEvent, switch: bool) -> int {
    if switch {
        ev.away_new as int
    } else {
        ev.home_new as int
    }
}

/// Which rating the series' second team carried into the event.
pub open spec fn side_b_old(ev: GameEvent, switch: bool) -> int {
    if switch {
        ev.home_old as int
    } else {
        ev.away_old as int
    }
}

/// Which rating the series' second team carried out of the event.
pub open spec fn side_b_new(ev: GameEvent, switch: bool) -> int {
    if switch {
        ev.home_new as int
    } else {
        ev.away_new as int
    }
}

/// The event is a consistent game number `game` of a series between the
/// two teams: hosted by the side the 2-2-1-1-1 pattern assigns, with the
/// expected score and the zero-sum rating arithmetic of one update applied
/// to the ratings it records.
pub open spec fn series_event_ok(
    ev: GameEvent,
    a0: Team,
    b0: Team,
    advantage_b: bool,
    game: int,
) -> bool {
    let switch = series_switch(advantage_b, game);
    &&& ev.home_name == (if switch {
        b0.name
    } else {
        a0.name
    })
    &&& ev.away_name == (if switch {
        a0.name
    } else {
        b0.name
    })
    &&& ev.expected == expected_spec(ev.home_old as int, ev.away_old as int)
    &&& ev.change == rating_change(ev.home_old as int, ev.away_old as int, ev.home_win)
    &&& ev.home_new == ev.home_old + ev.change
    &&& ev.away_new == ev.away_old - ev.change
}

/// Consecutive series events chain: each game starts from the ratings the
/// previous game ended at, on both sides.
pub open spec fn series_events_chained(evs: Seq<GameEvent>, advantage_b: bool) -> bool {
    forall|j: int|
        1 <= j < evs.len() ==> side_a_old(#[trigger] evs[j], series_switch(advantage_b, j + 1))
            == side_a_new(evs[j - 1], series_switch(advantage_b, j)) && side_b_old(
            evs[j],
            series_switch(advantage_b, j + 1),
        ) == side_b_new(evs[j - 1], series_switch(advantage_b, j))
}

pub fn switch_for_game(advantage_b: bool, game: u32) -> (r: bool)
    ensures
        r == series_switch(advantage_b, game as int),
{
    advantage_b != (game == 3 || game == 4 || game == 6)
}

/// The digit appended to a series label for one of its games.
pub open spec fn game_digit(game: int) -> Seq<char> {
    if game == 1 {
        "1"@
    } else if game == 2 {
        "2"@
    } else if game == 3 {
        "3"@
    } else if game == 4 {
        "4"@
    } else if game == 5 {
        "5"@
    } else if game == 6 {
        "6"@
    } else {
        "7"@
    }
}

pub fn game_label(name: &String, game: u32) -> (l: String)
    requires
        1 <= game <= 7,
    ensures
        l@ == name@ + game_digit(game as int),
{
    let digit = match game {
        1 => "1",
        2 => "2",
        3 => "3",
        4 => "4",
        5 => "5",
        6 => "6",
        _ => "7",
    };
    name.clone().concat(digit)
}

/// Immutable snapshot of a completed series: both labels and the final win
/// counts.
#[derive(Debug, Clone)]
pub struct RoundData {
    pub team_a: String,
    pub team_b: String,
    pub team_a_wins: u32,
    pub team_b_wins: u32,
}

/// A finished series shows exactly one side at four wins, the other at
/// three or fewer, over at most seven games.
pub open spec fn round_result_ok(d: RoundData) -> bool {
    d.team_a_wins + d.team_b_wins <= 7 && ((d.team_a_wins == 4 && d.team_b_wins <= 3) || (
    d.team_b_wins == 4 && d.team_a_wins <= 3))
}

/// The label of a finished series' winner: its 4-win side.
pub open spec fn round_winner_name(d: RoundData) -> String {
    if d.team_a_wins == 4 {
        d.team_a
    } else {
        d.team_b
    }
}

/// The label of a decided single game's winner.
pub open spec fn game_winner_name(d: GameData) -> String {
    if d.result {
        d.home
    } else {
        d.away
    }
}

/// The label of a decided single game's loser.
pub open spec fn game_loser_name(d: GameData) -> String {
    if d.result {
        d.away
    } else {
        d.home
    }
}

/// The label names one of the first `n` teams of the sequence.
pub open spec fn name_among(s: Seq<Team>, n: int, name: String) -> bool {
    exists|i: int| 0 <= i < n && (#[trigger] s[i]).name == name
}

proof fn lemma_name_among_intro(s: Seq<Team>, n: int, i: int, name: String)
    requires
        0 <= i < n,
        s[i].name == name,
    ensures
        name_among(s, n, name),
{
}

/// How many games a finished series took.
pub open spec fn series_games(d: RoundData) -> int {
    d.team_a_wins + d.team_b_wins
}

/// One best-of-seven series in progress: a label, the two teams, and the
/// running win counters.
pub struct Round {
    pub name: String,
    pub team_a: Team,
    pub team_b: Team,
    pub team_a_wins: u32,
    pub team_b_wins: u32,
}

impl RoundData {
    pub fn new(round: &Round) -> (r: RoundData)
        ensures
            r.team_a == round.team_a.name,
            r.team_b == round.team_b.name,
            r.team_a_wins == round.team_a_wins,
            r.team_b_wins == round.team_b_wins,
    {
        RoundData {
            team_a: round.team_a.name.clone(),
            team_b: round.team_b.name.clone(),
            team_a_wins: round.team_a_wins,
            team_b_wins: round.team_b_wins,
        }
    }
}

impl Round {
    pub fn new(name: String, team_a: Team, team_b: Team) -> (r: Round)
        ensures
            r.name@ == name@ + " game "@,
            r.team_a == team_a,
            r.team_b == team_b,
            r.team_a_wins == 0,
            r.team_b_wins == 0,
    {
        Round { name: name.concat(" game "), team_a: team_a, team_b: team_b, team_a_wins: 0, team_b_wins: 0 }
    }

    /// Play one game of the series in the given orientation: with `switch`
    /// the second team hosts. The winner's counter rises by one; the game
    /// ends the series when that counter reaches four.
    pub fn play_game(&mut self, label: &str, switch: bool, draw: u64) -> (r: (bool, GameEvent))
        requires
            old(self).team_a_wins < 4,
            old(self).team_b_wins < 4,
            draw < PROB_SCALE,
            elo_ok(old(self).team_a.elo as int, 1),
            elo_ok(old(self).team_b.elo as int, 1),
        ensures
            ({
                let home = if switch {
                    old(self).team_b
                } else {
                    old(self).team_a
                };
                let away = if switch {
                    old(self).team_a
                } else {
                    old(self).team_b
                };
                let win = game_outcome(home.elo as int, away.elo as int, draw as int);
                let a_won = (switch != win);
                &&& final(self).team_a == (if switch {
                    after_game_away(home, away, win, false)
                } else {
                    after_game_home(home, away, win, false)
                })
                &&& final(self).team_b == (if switch {
                    after_game_home(home, away, win, false)
                } else {
                    after_game_away(home, away, win, false)
                })
                &&& final(self).team_a_wins == old(self).team_a_wins + (if a_won {
                    1int
                } else {
                    0int
                })
                &&& final(self).team_b_wins == old(self).team_b_wins + (if a_won {
                    0int
                } else {
                    1int
                })
                &&& final(self).name == old(self).name
                &&& r.0 == (final(self).team_a_wins == 4 || final(self).team_b_wins == 4)
                &&& r.1.home_win == win
                &&& r.1.home_name == home.name
                &&& r.1.away_name == away.name
                &&& r.1.label@ == label@
                &&& r.1.expected == expected_spec(home.elo as int, away.elo as int)
                &&& r.1.change == rating_change(home.elo as int, away.elo as int, win)
                &&& r.1.home_old == home.elo
                &&& r.1.away_old == away.elo
                &&& r.1.home_new == home.elo + r.1.change
                &&& r.1.away_new == away.elo - r.1.change
                &&& r.1.home_new == (if switch {
                    final(self).team_b.elo
                } else {
                    final(self).team_a.elo
                })
                &&& r.1.away_new == (if switch {
                    final(self).team_a.elo
                } else {
                    final(self).team_b.elo
                })
                &&& elo_ok(final(self).team_a.elo as int, 0)
                &&& elo_ok(final(self).team_b.elo as int, 0)
            }),
    {
        proof {
            let home = if switch {
                old(self).team_b
            } else {
                old(self).team_a
            };
            let away = if switch {
                old(self).team_a
            } else {
                old(self).team_b
            };
            lemma_change_bounded(
                home.elo as int,
                away.elo as int,
                game_outcome(home.elo as int, away.elo as int, draw as int),
            );
        }
        let (win, ev) = if switch {
            simulate_from_teams(label, &mut self.team_b, &mut self.team_a, false, draw)
        } else {
            simulate_from_teams(label, &mut self.team_a, &mut self.team_b, false, draw)
        };
        let done = if switch != win {
            self.team_a_wins = self.team_a_wins + 1;
            self.team_a_wins == 4
        } else {
            self.team_b_wins = self.team_b_wins + 1;
            self.team_b_wins == 4
        };
        (done, ev)
    }

    /// Run the series to its decision: repeated games under the 2-2-1-1-1
    /// pattern, ending the moment one side reaches four wins — never more
    /// than seven games. Returns the winner, the series snapshot, and the
    /// reporting events selected by the filter.
    pub fn simulate(self, filter: &str) -> (r: (Team, RoundData, Vec<GameEvent>))
        requires
            self.team_a_wins == 0,
            self.team_b_wins == 0,
            elo_ok(self.team_a.elo as int, 7),
            elo_ok(self.team_b.elo as int, 7),
        ensures
            round_result_ok(r.1),
            r.1.team_a == self.team_a.name,
            r.1.team_b == self.team_b.name,
            r.1.team_a_wins == 4 ==> same_identity(r.0, self.team_a) && same_record(
                r.0,
                self.team_a,
            ),
            r.1.team_b_wins == 4 ==> same_identity(r.0, self.team_b) && same_record(
                r.0,
                self.team_b,
            ),
            same_identity(r.0, self.team_a) || same_identity(r.0, self.team_b),
            r.0.name == round_winner_name(r.1),
            ({
                let lo = if self.team_a.elo <= self.team_b.elo {
                    self.team_a.elo
                } else {
                    self.team_b.elo
                };
                let hi = if self.team_a.elo <= self.team_b.elo {
                    self.team_b.elo
                } else {
                    self.team_a.elo
                };
                lo - 7 * (MAX_SHIFT as int) <= r.0.elo as int <= hi + 7 * (MAX_SHIFT as int)
            }),
            elo_ok(r.0.elo as int, 0),
            is_wildcard(filter@) ==> ({
                let adv = advantage_spec(self.team_a, self.team_b);
                let n = r.2@.len() as int;
                &&& n == r.1.team_a_wins + r.1.team_b_wins
                &&& forall|j: int|
                    0 <= j < n ==> series_event_ok(
                        #[trigger] r.2@[j],
                        self.team_a,
                        self.team_b,
                        adv,
                        j + 1,
                    )
                &&& series_events_chained(r.2@, adv)
                &&& side_a_old(r.2@[0], series_switch(adv, 1)) == self.team_a.elo
                &&& side_b_old(r.2@[0], series_switch(adv, 1)) == self.team_b.elo
                &&& (r.1.team_a_wins == 4 ==> r.0.elo == side_a_new(
                    r.2@[n - 1],
                    series_switch(adv, n),
                ))
                &&& (r.1.team_b_wins == 4 ==> r.0.elo == side_b_new(
                    r.2@[n - 1],
                    series_switch(adv, n),
                ))
            }),
    {
        let mut series = self;
        let ghost a0 = series.team_a;
        let ghost b0 = series.team_b;
        let ghost lo: int = if a0.elo <= b0.elo {
            a0.elo as int
        } else {
            b0.elo as int
        };
        let ghost hi: int = if a0.elo <= b0.elo {
            b0.elo as int
        } else {
            a0.elo as int
        };
        let advantage_b = series_advantage(&series.team_a, &series.team_b);
        let mut events: Vec<GameEvent> = Vec::new();
        let mut game: u32 = 1;
        loop
            invariant_except_break
                series.team_a_wins < 4,
                series.team_b_wins < 4,
                game == series.team_a_wins + series.team_b_wins + 1,
            invariant
                same_identity(series.team_a, a0),
                same_record(series.team_a, a0),
                same_identity(series.team_b, b0),
                same_record(series.team_b, b0),
                series_names_fixed(series, a0, b0),
                advantage_b == advantage_spec(a0, b0),
                lo - (series.team_a_wins + series.team_b_wins) * (MAX_SHIFT as int)
                    <= series.team_a.elo as int <= hi + (series.team_a_wins
                    + series.team_b_wins) * (MAX_SHIFT as int),
                lo - (series.team_a_wins + series.team_b_wins) * (MAX_SHIFT as int)
                    <= series.team_b.elo as int <= hi + (series.team_a_wins
                    + series.team_b_wins) * (MAX_SHIFT as int),
                elo_ok(series.team_a.elo as int, 7 - series.team_a_wins - series.team_b_wins),
                elo_ok(series.team_b.elo as int, 7 - series.team_a_wins - series.team_b_wins),
                is_wildcard(filter@) ==> events@.len() == series.team_a_wins
                    + series.team_b_wins,
                is_wildcard(filter@) ==> forall|j: int|
                    0 <= j < events@.len() ==> series_event_ok(
                        #[trigger] events@[j],
                        a0,
                        b0,
                        advantage_b,
                        j + 1,
                    ),
                is_wildcard(filter@) ==> series_events_chained(events@, advantage_b),
                is_wildcard(filter@) && events@.len() == 0 ==> series.team_a.elo == a0.elo
                    && series.team_b.elo == b0.elo,
                is_wildcard(filter@) && events@.len() >= 1 ==> side_a_old(
                    events@[0],
                    series_switch(advantage_b, 1),
                ) == a0.elo && side_b_old(events@[0], series_switch(advantage_b, 1)) == b0.elo,
                is_wildcard(filter@) && events@.len() >= 1 ==> series.team_a.elo == side_a_new(
                    events@.last(),
                    series_switch(advantage_b, events@.len() as int),
                ) && series.team_b.elo == side_b_new(
                    events@.last(),
                    series_switch(advantage_b, events@.len() as int),
                ),
            ensures
                series.team_a_wins + series.team_b_wins <= 7,
                (series.team_a_wins == 4 && series.team_b_wins <= 3) || (series.team_b_wins == 4
                    && series.team_a_wins <= 3),
            decreases 8 - series.team_a_wins - series.team_b_wins,
        {
            let label = game_label(&series.name, game);
            let switch = switch_for_game(advantage_b, game);
            let draw = random_below(1_000_000);
            let ghost pre = series;
            let ghost pre_events = events@;
            let (done, ev) = series.play_game(&label, switch, draw);
            let ghost gev = ev;
            proof {
                let home = if switch {
                    pre.team_b
                } else {
                    pre.team_a
                };
                let away = if switch {
                    pre.team_a
                } else {
                    pre.team_b
                };
                let win = game_outcome(home.elo as int, away.elo as int, draw as int);
                lemma_change_bounded(home.elo as int, away.elo as int, win);
            }
            if filter_matches(filter, &ev.home_name, &ev.away_name) {
                events.push(ev);
            }
            proof {
                if is_wildcard(filter@) {
                    assert(events@ == pre_events.push(gev));
                    assert(series_event_ok(gev, a0, b0, advantage_b, game as int));
                    assert forall|j: int| 0 <= j < events@.len() implies series_event_ok(
                        #[trigger] events@[j],
                        a0,
                        b0,
                        advantage_b,
                        j + 1,
                    ) by {
                        if j < pre_events.len() {
                            assert(events@[j] == pre_events[j]);
                        } else {
                            assert(events@[j] == gev);
                        }
                    }
                    assert(series_events_chained(events@, advantage_b)) by {
                        assert forall|j: int| 1 <= j < events@.len() implies side_a_old(
                            #[trigger] events@[j],
                            series_switch(advantage_b, j + 1),
                        ) == side_a_new(events@[j - 1], series_switch(advantage_b, j))
                            && side_b_old(events@[j], series_switch(advantage_b, j + 1))
                            == side_b_new(events@[j - 1], series_switch(advantage_b, j)) by {
                            if j < pre_events.len() {
                                assert(events@[j] == pre_events[j]);
                                assert(events@[j - 1] == pre_events[j - 1]);
                            } else {
                                assert(events@[j] == gev);
                                if j >= 1 {
                                    assert(events@[j - 1] == pre_events[j - 1]);
                                }
                            }
                        }
                    }
                }
            }
            if done {
                break;
            }
            game = game + 1;
        }
        let data = RoundData::new(&series);
        let winner = if series.team_a_wins == 4 {
            series.team_a
        } else {
            series.team_b
        };
        (winner, data, events)
    }
}

/// Helper predicate tying a running series to its two starting teams by
/// name, so the final snapshot labels the original sides.
pub open spec fn series_names_fixed(s: Round, a0: Team, b0: Team) -> bool {
    s.team_a.name == a0.name && s.team_b.name == b0.name
}

/// The team is, up to its rating, one of the first `n` of the sequence:
/// same identity and same season record.
pub open spec fn is_one_of(t: Team, s: Seq<Team>, n: int) -> bool {
    exists|i: int| 0 <= i < n && same_identity(t, #[trigger] s[i]) && same_record(t, s[i])
}

proof fn lemma_one_of_intro(t: Team, s: Seq<Team>, n: int, i: int)
    requires
        0 <= i < n,
        same_identity(t, s[i]),
        same_record(t, s[i]),
    ensures
        is_one_of(t, s, n),
{
}

/// All completed rounds of one conference: the play-in triple, four
/// first-round series, two semifinals, and the conference final.
pub struct ConferenceData {
    pub play_in: [GameData; 3],
    pub round_1: [RoundData; 4],
    pub semifinals: [RoundData; 2],
    pub finals: RoundData,
}

impl ConferenceData {
    pub fn new(
        play_in: [GameData; 3],
        round_1: [RoundData; 4],
        semifinals: [RoundData; 2],
        finals: RoundData,
    ) -> (r: ConferenceData)
        ensures
            r.play_in == play_in,
            r.round_1 == round_1,
            r.semifinals == semifinals,
            r.finals == finals,
    {
        ConferenceData { play_in, round_1, semifinals, finals }
    }
}

/// Total games one conference's returned data records: the three play-in
/// games plus every game of its seven series.
pub open spec fn conference_games(d: ConferenceData) -> int {
    3 + series_games(d.round_1@[0]) + series_games(d.round_1@[1]) + series_games(d.round_1@[2])
        + series_games(d.round_1@[3]) + series_games(d.semifinals@[0]) + series_games(
        d.semifinals@[1],
    ) + series_games(d.finals)
}

/// One conference's postseason: its name and its seeded teams, best season
/// record first.
pub struct ConferenceBracket {
    pub name: String,
    pub teams: Vec<Team>,
}

impl ConferenceBracket {
    pub fn new(name: String, teams: Vec<Team>) -> (r: ConferenceBracket)
        ensures
            r.name == name,
            r.teams == teams,
    {
        ConferenceBracket { name, teams }
    }

    /// The play-in among seeds seven to ten, decided by the three given
    /// draws: seed seven hosts seed eight for the first bracket slot, seed
    /// nine hosts seed ten, and the first game's loser hosts the second
    /// game's winner for the last slot. The two teams beaten in games one
    /// and three are eliminated; the seeding is cut to ten teams first.
    pub fn simulate_play_in(&mut self, d1: u64, d2: u64, d3: u64, filter: &str) -> (r: (
        [GameData; 3],
        Vec<GameEvent>,
    ))
        requires
            old(self).teams@.len() >= 10,
            forall|i: int| 0 <= i < 10 ==> elo_ok(#[trigger] old(self).teams@[i].elo as int, 2),
            d1 < PROB_SCALE,
            d2 < PROB_SCALE,
            d3 < PROB_SCALE,
        ensures
            ({
                let t7 = old(self).teams@[6];
                let t8 = old(self).teams@[7];
                let t9 = old(self).teams@[8];
                let t10 = old(self).teams@[9];
                let w1 = game_outcome(t7.elo as int, t8.elo as int, d1 as int);
                let seventh = if w1 {
                    after_game_home(t7, t8, w1, false)
                } else {
                    after_game_away(t7, t8, w1, false)
                };
                let g3home = if w1 {
                    after_game_away(t7, t8, w1, false)
                } else {
                    after_game_home(t7, t8, w1, false)
                };
                let w2 = game_outcome(t9.elo as int, t10.elo as int, d2 as int);
                let g3away = if w2 {
                    after_game_home(t9, t10, w2, false)
                } else {
                    after_game_away(t9, t10, w2, false)
                };
                let w3 = game_outcome(g3home.elo as int, g3away.elo as int, d3 as int);
                let eighth = if w3 {
                    after_game_home(g3home, g3away, w3, false)
                } else {
                    after_game_away(g3home, g3away, w3, false)
                };
                &&& final(self).teams@ == old(self).teams@.subrange(0, 6).push(seventh).push(
                    eighth,
                )
                &&& final(self).name == old(self).name
                &&& r.0@[0].home == t7.name
                &&& r.0@[0].away == t8.name
                &&& r.0@[0].result == w1
                &&& r.0@[1].home == t9.name
                &&& r.0@[1].away == t10.name
                &&& r.0@[1].result == w2
                &&& r.0@[2].home == g3home.name
                &&& r.0@[2].away == g3away.name
                &&& r.0@[2].result == w3
            }),
            is_wildcard(filter@) ==> r.1@.len() == 3,
    {
        proof {
            let t7 = old(self).teams@[6];
            let t8 = old(self).teams@[7];
            let t9 = old(self).teams@[8];
            let t10 = old(self).teams@[9];
            lemma_change_bounded(
                t7.elo as int,
                t8.elo as int,
                game_outcome(t7.elo as int, t8.elo as int, d1 as int),
            );
            lemma_change_bounded(
                t9.elo as int,
                t10.elo as int,
                game_outcome(t9.elo as int, t10.elo as int, d2 as int),
            );
        }
        self.teams.truncate(10);
        let tenth = self.teams.pop().unwrap();
        let ninth = self.teams.pop().unwrap();
        let eighth = self.teams.pop().unwrap();
        let seventh = self.teams.pop().unwrap();
        assert(self.teams@ =~= old(self).teams@.subrange(0, 6));
        let label1 = self.name.clone().concat(" play-in round 1");
        let (seventh, g3home, data1, ev1) = simulate_with_info(
            label1.as_str(),
            seventh,
            eighth,
            d1,
        );
        let label2 = self.name.clone().concat(" play-in round 2");
        let (g3away, _, data2, ev2) = simulate_with_info(label2.as_str(), ninth, tenth, d2);
        let label3 = self.name.clone().concat(" play-in round 3");
        let (eighth, _, data3, ev3) = simulate_with_info(label3.as_str(), g3home, g3away, d3);
        self.teams.push(seventh);
        self.teams.push(eighth);
        let mut events: Vec<GameEvent> = Vec::new();
        if filter_matches(filter, &ev1.home_name, &ev1.away_name) {
            events.push(ev1);
        }
        if filter_matches(filter, &ev2.home_name, &ev2.away_name) {
            events.push(ev2);
        }
        if filter_matches(filter, &ev3.home_name, &ev3.away_name) {
            events.push(ev3);
        }
        ([data1, data2, data3], events)
    }

    /// Run one conference's whole postseason: the play-in reduces ten
    /// seeds to eight and eliminates two; then four first-round series
    /// (one against eight, two against seven, three against six, four
    /// against five), two semifinals pairing adjacent winners, and the
    /// conference final produce a single conference champion.
    #[verifier::rlimit(100)]
    pub fn simulate(self, filter: &str) -> (r: (Team, ConferenceData, Vec<GameEvent>))
        requires
            self.teams@.len() >= 10,
            forall|i: int| 0 <= i < 10 ==> elo_ok(#[trigger] self.teams@[i].elo as int, 30),
        ensures
            is_one_of(r.0, self.teams@, 10),
            elo_ok(r.0.elo as int, 7),
            forall|i: int| 0 <= i < 4 ==> round_result_ok(#[trigger] r.1.round_1@[i]),
            forall|i: int| 0 <= i < 2 ==> round_result_ok(#[trigger] r.1.semifinals@[i]),
            round_result_ok(r.1.finals),
            r.0.name == round_winner_name(r.1.finals),
            r.1.play_in@[0].home == self.teams@[6].name,
            r.1.play_in@[0].away == self.teams@[7].name,
            r.1.play_in@[1].home == self.teams@[8].name,
            r.1.play_in@[1].away == self.teams@[9].name,
            r.1.play_in@[2].home == game_loser_name(r.1.play_in@[0]),
            r.1.play_in@[2].away == game_winner_name(r.1.play_in@[1]),
            r.1.round_1@[0].team_a == self.teams@[0].name,
            r.1.round_1@[0].team_b == game_winner_name(r.1.play_in@[2]),
            r.1.round_1@[1].team_a == self.teams@[1].name,
            r.1.round_1@[1].team_b == game_winner_name(r.1.play_in@[0]),
            r.1.round_1@[2].team_a == self.teams@[2].name,
            r.1.round_1@[2].team_b == self.teams@[5].name,
            r.1.round_1@[3].team_a == self.teams@[3].name,
            r.1.round_1@[3].team_b == self.teams@[4].name,
            r.1.semifinals@[0].team_a == round_winner_name(r.1.round_1@[0]),
            r.1.semifinals@[0].team_b == round_winner_name(r.1.round_1@[3]),
            r.1.semifinals@[1].team_a == round_winner_name(r.1.round_1@[1]),
            r.1.semifinals@[1].team_b == round_winner_name(r.1.round_1@[2]),
            r.1.finals.team_a == round_winner_name(r.1.semifinals@[0]),
            r.1.finals.team_b == round_winner_name(r.1.semifinals@[1]),
            forall|i: int|
                0 <= i < 3 ==> name_among(self.teams@, 10, (#[trigger] r.1.play_in@[i]).home)
                    && name_among(self.teams@, 10, r.1.play_in@[i].away),
            forall|i: int|
                0 <= i < 4 ==> name_among(self.teams@, 10, (#[trigger] r.1.round_1@[i]).team_a)
                    && name_among(self.teams@, 10, r.1.round_1@[i].team_b),
            forall|i: int|
                0 <= i < 2 ==> name_among(self.teams@, 10, (#[trigger] r.1.semifinals@[i]).team_a)
                    && name_among(self.teams@, 10, r.1.semifinals@[i].team_b),
            name_among(self.teams@, 10, r.1.finals.team_a),
            name_among(self.teams@, 10, r.1.finals.team_b),
            is_wildcard(filter@) ==> r.2@.len() == conference_games(r.1),
    {
        let ghost teams0 = self.teams@;
        let mut bracket = self;
        proof {
            assert forall|i: int| 0 <= i < 10 implies elo_ok(
                #[trigger] bracket.teams@[i].elo as int,
                2,
            ) by {
                lemma_elo_ok_mono(bracket.teams@[i].elo as int, 30, 2);
            }
        }
        let d1 = random_below(1_000_000);
        let d2 = random_below(1_000_000);
        let d3 = random_below(1_000_000);
        let (play_in, mut events) = bracket.simulate_play_in(d1, d2, d3, filter);
        proof {
            let t7 = teams0[6];
            let t8 = teams0[7];
            let t9 = teams0[8];
            let t10 = teams0[9];
            let w1 = game_outcome(t7.elo as int, t8.elo as int, d1 as int);
            let w2 = game_outcome(t9.elo as int, t10.elo as int, d2 as int);
            lemma_change_bounded(t7.elo as int, t8.elo as int, w1);
            lemma_change_bounded(t9.elo as int, t10.elo as int, w2);
            let g3home = if w1 {
                after_game_away(t7, t8, w1, false)
            } else {
                after_game_home(t7, t8, w1, false)
            };
            let g3away = if w2 {
                after_game_home(t9, t10, w2, false)
            } else {
                after_game_away(t9, t10, w2, false)
            };
            lemma_change_bounded(
                g3home.elo as int,
                g3away.elo as int,
                game_outcome(g3home.elo as int, g3away.elo as int, d3 as int),
            );
        }
        let s8 = bracket.teams.pop().unwrap();
        let s7 = bracket.teams.pop().unwrap();
        let s6 = bracket.teams.pop().unwrap();
        let s5 = bracket.teams.pop().unwrap();
        let s4 = bracket.teams.pop().unwrap();
        let s3 = bracket.teams.pop().unwrap();
        let s2 = bracket.teams.pop().unwrap();
        let s1 = bracket.teams.pop().unwrap();
        assert(elo_ok(s1.elo as int, 28) && elo_ok(s2.elo as int, 28) && elo_ok(
            s3.elo as int,
            28,
        ) && elo_ok(s4.elo as int, 28) && elo_ok(s5.elo as int, 28) && elo_ok(s6.elo as int, 28)
            && elo_ok(s7.elo as int, 28) && elo_ok(s8.elo as int, 28)) by {
            assert forall|i: int| 0 <= i < 10 implies elo_ok(#[trigger] teams0[i].elo as int, 28) by {
                lemma_elo_ok_mono(teams0[i].elo as int, 30, 28);
            }
        }
        let r18 = Round::new(bracket.name.clone().concat(" round 1 (1 vs 8)"), s1, s8);
        let (w18, d18, mut ev) = r18.simulate(filter);
        events.append(&mut ev);
        let r27 = Round::new(bracket.name.clone().concat(" round 1 (2 vs 7)"), s2, s7);
        let (w27, d27, mut ev) = r27.simulate(filter);
        events.append(&mut ev);
        let r36 = Round::new(bracket.name.clone().concat(" round 1 (3 vs 6)"), s3, s6);
        let (w36, d36, mut ev) = r36.simulate(filter);
        events.append(&mut ev);
        let r45 = Round::new(bracket.name.clone().concat(" round 1 (4 vs 5)"), s4, s5);
        let (w45, d45, mut ev) = r45.simulate(filter);
        events.append(&mut ev);
        assert(elo_ok(w18.elo as int, 21) && elo_ok(w27.elo as int, 21) && elo_ok(
            w36.elo as int,
            21,
        ) && elo_ok(w45.elo as int, 21));
        let sa = Round::new(bracket.name.clone().concat(" semifinals (1/8 vs 4/5)"), w18, w45);
        let (sw1, dsa, mut ev) = sa.simulate(filter);
        events.append(&mut ev);
        let sb = Round::new(bracket.name.clone().concat(" semifinals (2/7 vs 3/6)"), w27, w36);
        let (sw2, dsb, mut ev) = sb.simulate(filter);
        events.append(&mut ev);
        assert(elo_ok(sw1.elo as int, 14) && elo_ok(sw2.elo as int, 14));
        let fin = Round::new(bracket.name.clone().concat(" finals (1 vs 8)"), sw1, sw2);
        let (champion, dfin, mut ev) = fin.simulate(filter);
        events.append(&mut ev);
        assert(elo_ok(champion.elo as int, 7));
        proof {
            if same_identity(champion, s1) && same_record(champion, s1) {
                lemma_one_of_intro(champion, teams0, 10, 0);
            } else if same_identity(champion, s2) && same_record(champion, s2) {
                lemma_one_of_intro(champion, teams0, 10, 1);
            } else if same_identity(champion, s3) && same_record(champion, s3) {
                lemma_one_of_intro(champion, teams0, 10, 2);
            } else if same_identity(champion, s4) && same_record(champion, s4) {
                lemma_one_of_intro(champion, teams0, 10, 3);
            } else if same_identity(champion, s5) && same_record(champion, s5) {
                lemma_one_of_intro(champion, teams0, 10, 4);
            } else if same_identity(champion, s6) && same_record(champion, s6) {
                lemma_one_of_intro(champion, teams0, 10, 5);
            } else if same_identity(champion, teams0[6]) && same_record(champion, teams0[6]) {
                lemma_one_of_intro(champion, teams0, 10, 6);
            } else if same_identity(champion, teams0[7]) && same_record(champion, teams0[7]) {
                lemma_one_of_intro(champion, teams0, 10, 7);
            } else if same_identity(champion, teams0[8]) && same_record(champion, teams0[8]) {
                lemma_one_of_intro(champion, teams0, 10, 8);
            } else {
                lemma_one_of_intro(champion, teams0, 10, 9);
            }
            // every label in the returned data names one of the ten seeds
            let t7 = teams0[6];
            let t8 = teams0[7];
            let t9 = teams0[8];
            let t10 = teams0[9];
            let w1 = game_outcome(t7.elo as int, t8.elo as int, d1 as int);
            let w2 = game_outcome(t9.elo as int, t10.elo as int, d2 as int);
            lemma_name_among_intro(teams0, 10, 0, s1.name);
            lemma_name_among_intro(teams0, 10, 1, s2.name);
            lemma_name_among_intro(teams0, 10, 2, s3.name);
            lemma_name_among_intro(teams0, 10, 3, s4.name);
            lemma_name_among_intro(teams0, 10, 4, s5.name);
            lemma_name_among_intro(teams0, 10, 5, s6.name);
            lemma_name_among_intro(teams0, 10, 6, t7.name);
            lemma_name_among_intro(teams0, 10, 7, t8.name);
            lemma_name_among_intro(teams0, 10, 8, t9.name);
            lemma_name_among_intro(teams0, 10, 9, t10.name);
            if w1 {
                lemma_name_among_intro(teams0, 10, 6, s7.name);
            } else {
                lemma_name_among_intro(teams0, 10, 7, s7.name);
            }
            let g3home = if w1 {
                after_game_away(t7, t8, w1, false)
            } else {
                after_game_home(t7, t8, w1, false)
            };
            let g3away = if w2 {
                after_game_home(t9, t10, w2, false)
            } else {
                after_game_away(t9, t10, w2, false)
            };
            let w3 = game_outcome(g3home.elo as int, g3away.elo as int, d3 as int);
            if w3 {
                if w1 {
                    lemma_name_among_intro(teams0, 10, 7, s8.name);
                } else {
                    lemma_name_among_intro(teams0, 10, 6, s8.name);
                }
            } else {
                if w2 {
                    lemma_name_among_intro(teams0, 10, 8, s8.name);
                } else {
                    lemma_name_among_intro(teams0, 10, 9, s8.name);
                }
            }
            assert(name_among(teams0, 10, w18.name));
            assert(name_among(teams0, 10, w27.name));
            assert(name_among(teams0, 10, w36.name));
            assert(name_among(teams0, 10, w45.name));
            assert(name_among(teams0, 10, sw1.name));
            assert(name_among(teams0, 10, sw2.name));
            assert(name_among(teams0, 10, champion.name));
        }
        let data = ConferenceData::new(play_in, [d18, d27, d36, d45], [dsa, dsb], dfin);
        (champion, data, events)
    }
}

/// Seeding order: fewest season losses first.
pub open spec fn sorted_by_loses(s: Seq<Team>) -> bool {
    forall|i: int, j: int|
        0 <= i < j < s.len() ==> #[trigger] s[i].season_loses <= #[trigger] s[j].season_loses
}

/// The first index among the first `k` entries carrying the minimal loss
/// count: ties resolve to the earliest index.
pub open spec fn first_min_index(s: Seq<Team>, k: int) -> int
    decreases k,
{
    if k <= 1 {
        0
    } else {
        let m = first_min_index(s, k - 1);
        if s[k - 1].season_loses < s[m].season_loses {
            k - 1
        } else {
            m
        }
    }
}

/// The seeding order, fully determined: repeatedly take out the first
/// remaining team with the fewest losses. Equal records therefore keep
/// their input order — a stable sort with a deterministic tie-break.
pub open spec fn sort_spec(s: Seq<Team>) -> Seq<Team>
    decreases s.len(),
{
    if s.len() == 0 {
        s
    } else {
        let m = first_min_index(s, s.len() as int);
        if 0 <= m < s.len() {
            seq![s[m]] + sort_spec(s.remove(m))
        } else {
            s
        }
    }
}

/// Sort teams by fewest season losses, stably: among equal records the
/// input order is kept, by always taking the first remaining minimum.
pub fn sort_by_loses(teams: Vec<Team>) -> (r: Vec<Team>)
    ensures
        r@.len() == teams@.len(),
        sorted_by_loses(r@),
        r@.to_multiset() == teams@.to_multiset(),
        r@ == sort_spec(teams@),
{
    broadcast use vstd::seq_lib::group_to_multiset_ensures;

    let mut src = teams;
    let mut out: Vec<Team> = Vec::new();
    proof {
        assert(out@.to_multiset().add(src@.to_multiset()) =~= teams@.to_multiset());
    }
    while src.len() > 0
        invariant
            out@.len() + src@.len() == teams@.len(),
            sorted_by_loses(out@),
            out@.to_multiset().add(src@.to_multiset()) == teams@.to_multiset(),
            out@ + sort_spec(src@) == sort_spec(teams@),
            forall|p: int, q: int|
                0 <= p < out@.len() && 0 <= q < src@.len() ==> #[trigger] out@[p].season_loses
                    <= #[trigger] src@[q].season_loses,
        decreases src@.len(),
    {
        let mut m: usize = 0;
        let mut i: usize = 1;
        while i < src.len()
            invariant
                0 <= m < i <= src@.len(),
                src@.len() > 0,
                m as int == first_min_index(src@, i as int),
                forall|q: int|
                    0 <= q < i ==> src@[m as int].season_loses <= #[trigger] src@[q].season_loses,
            decreases src@.len() - i,
        {
            if src[i].season_loses < src[m].season_loses {
                m = i;
            }
            i = i + 1;
        }
        let ghost pre = src@;
        let ghost pre_out = out@;
        let t = src.remove(m);
        proof {
            broadcast use vstd::multiset::group_multiset_axioms;

            assert(pre[m as int] == t);
            assert(pre.contains(t));
            vstd::seq_lib::to_multiset_remove::<Team>(pre, m as int);
            vstd::seq_lib::to_multiset_build::<Team>(out@, t);
            vstd::seq_lib::to_multiset_contains::<Team>(pre, t);
            assert(pre.to_multiset().count(t) > 0);
            assert(out@.push(t).to_multiset().add(src@.to_multiset()) =~= teams@.to_multiset());
            assert(sort_spec(pre) == seq![t] + sort_spec(src@));
            assert(pre_out.push(t) =~= pre_out + seq![t]);
            assert((pre_out + seq![t]) + sort_spec(src@) =~= pre_out + (seq![t] + sort_spec(
                src@,
            )));
            assert forall|q: int| 0 <= q < src@.len() implies t.season_loses
                <= #[trigger] src@[q].season_loses by {
                if q < m as int {
                    assert(src@[q] == pre[q]);
                } else {
                    assert(src@[q] == pre[q + 1]);
                }
            }
        }
        out.push(t);
    }
    proof {
        broadcast use vstd::multiset::group_multiset_axioms;

        assert(out@.to_multiset() =~= teams@.to_multiset()) by {
            assert forall|x: Team| out@.to_multiset().count(x) == teams@.to_multiset().count(
                x,
            ) by {
                assert(!src@.contains(x));
                assert(src@.to_multiset().count(x) == 0);
                assert(out@.to_multiset().add(src@.to_multiset()).count(x) == out@.to_multiset()
                    .count(x));
            }
        }
        assert(out@ + sort_spec(src@) =~= out@);
    }
    out
}

/// The subsequence of a team list belonging to one conference, in input
/// order.
pub open spec fn conference_of(s: Seq<Team>, west: bool) -> Seq<Team>
    decreases s.len(),
{
    if s.len() == 0 {
        s
    } else {
        let rest = conference_of(s.drop_last(), west);
        if (s.last().conference is West) == west {
            rest.push(s.last())
        } else {
            rest
        }
    }
}

/// Split a team list into its West and East conferences, each sorted by
/// fewest season losses, keeping the input order among equal records: the
/// two outputs are exactly the stable seeding sort of each conference's
/// subsequence, and together they are a permutation of the input.
pub fn partition(teams: Vec<Team>) -> (r: (Vec<Team>, Vec<Team>))
    ensures
        r.0@ == sort_spec(conference_of(teams@, true)),
        r.1@ == sort_spec(conference_of(teams@, false)),
        r.0@.to_multiset().add(r.1@.to_multiset()) == teams@.to_multiset(),
        r.0@.len() == conf_count(teams@, true),
        r.1@.len() == conf_count(teams@, false),
        forall|i: int| 0 <= i < r.0@.len() ==> (#[trigger] r.0@[i]).conference is West,
        forall|i: int| 0 <= i < r.1@.len() ==> (#[trigger] r.1@[i]).conference is East,
        sorted_by_loses(r.0@),
        sorted_by_loses(r.1@),
        forall|i: int|
            0 <= i < r.0@.len() ==> exists|j: int|
                0 <= j < teams@.len() && #[trigger] r.0@[i] == teams@[j],
        forall|i: int|
            0 <= i < r.1@.len() ==> exists|j: int|
                0 <= j < teams@.len() && #[trigger] r.1@[i] == teams@[j],
{
    broadcast use vstd::seq_lib::group_to_multiset_ensures;
    broadcast use vstd::multiset::group_multiset_axioms;

    let mut west: Vec<Team> = Vec::new();
    let mut east: Vec<Team> = Vec::new();
    let n = teams.len();
    let mut k: usize = 0;
    while k < n
        invariant
            0 <= k <= n,
            n == teams@.len(),
            west@.len() == conf_count(teams@.subrange(0, k as int), true),
            east@.len() == conf_count(teams@.subrange(0, k as int), false),
            west@ == conference_of(teams@.subrange(0, k as int), true),
            east@ == conference_of(teams@.subrange(0, k as int), false),
            west@.to_multiset().add(east@.to_multiset()) == teams@.subrange(
                0,
                k as int,
            ).to_multiset(),
            forall|i: int| 0 <= i < west@.len() ==> (#[trigger] west@[i]).conference is West,
            forall|i: int| 0 <= i < east@.len() ==> (#[trigger] east@[i]).conference is East,
            forall|i: int|
                0 <= i < west@.len() ==> exists|j: int|
                    0 <= j < teams@.len() && #[trigger] west@[i] == teams@[j],
            forall|i: int|
                0 <= i < east@.len() ==> exists|j: int|
                    0 <= j < teams@.len() && #[trigger] east@[i] == teams@[j],
        decreases n - k,
    {
        let t = teams[k].duplicate();
        proof {
            assert(teams@.subrange(0, k + 1).drop_last() =~= teams@.subrange(0, k as int));
            assert(teams@.subrange(0, k + 1).last() == teams@[k as int]);
            assert(teams@.subrange(0, k + 1) =~= teams@.subrange(0, k as int).push(
                teams@[k as int],
            ));
            vstd::seq_lib::to_multiset_build::<Team>(teams@.subrange(0, k as int), teams@[k as int]);
            vstd::seq_lib::to_multiset_build::<Team>(west@, teams@[k as int]);
            vstd::seq_lib::to_multiset_build::<Team>(east@, teams@[k as int]);
            assert(west@.push(teams@[k as int]).to_multiset().add(east@.to_multiset())
                =~= teams@.subrange(0, k + 1).to_multiset());
            assert(west@.to_multiset().add(east@.push(teams@[k as int]).to_multiset())
                =~= teams@.subrange(0, k + 1).to_multiset());
        }
        match t.conference {
            crate::types::Conference::West => west.push(t),
            crate::types::Conference::East => east.push(t),
        }
        k = k + 1;
    }
    proof {
        assert(teams@.subrange(0, n as int) =~= teams@);
    }
    let ghost west_pre = west@;
    let ghost east_pre = east@;
    let west = sort_by_loses(west);
    let east = sort_by_loses(east);
    proof {
        assert forall|i: int| 0 <= i < west@.len() implies (#[trigger] west@[i]).conference is West
            && (exists|j: int| 0 <= j < teams@.len() && west@[i] == teams@[j]) by {
            assert(west@.contains(west@[i]));
            assert(west@.to_multiset().count(west@[i]) > 0);
            assert(west_pre.contains(west@[i]));
            let p = choose|p: int| 0 <= p < west_pre.len() && west_pre[p] == west@[i];
            assert(west_pre[p].conference is West);
        }
        assert forall|i: int| 0 <= i < east@.len() implies (#[trigger] east@[i]).conference is East
            && (exists|j: int| 0 <= j < teams@.len() && east@[i] == teams@[j]) by {
            assert(east@.contains(east@[i]));
            assert(east@.to_multiset().count(east@[i]) > 0);
            assert(east_pre.contains(east@[i]));
            let p = choose|p: int| 0 <= p < east_pre.len() && east_pre[p] == east@[i];
            assert(east_pre[p].conference is East);
        }
    }
    (west, east)
}

/// The label names a team of the given conference (`west` true for West,
/// false for East) in the store.
pub open spec fn conference_name(s: Seq<Team>, west: bool, name: String) -> bool {
    exists|j: int|
        0 <= j < s.len() && ((#[trigger] s[j]).conference is West) == west && s[j].name == name
}

proof fn lemma_lift_conference_name(name: String, sub: Seq<Team>, all: Seq<Team>, west: bool)
    requires
        name_among(sub, 10, name),
        sub.len() >= 10,
        forall|i: int| 0 <= i < sub.len() ==> ((#[trigger] sub[i]).conference is West) == west,
        forall|i: int|
            0 <= i < sub.len() ==> exists|j: int| 0 <= j < all.len() && #[trigger] sub[i] == all[j],
    ensures
        conference_name(all, west, name),
{
    let i = choose|i: int| 0 <= i < 10 && (#[trigger] sub[i]).name == name;
    let j = choose|j: int| 0 <= j < all.len() && sub[i] == all[j];
    assert(0 <= j < all.len() && (all[j].conference is West) == west && all[j].name == name);
}

/// Run the whole postseason over a finished season's teams: partition and
/// seed both conferences, run each conference's bracket, then decide the
/// championship between the two conference champions.
#[verifier::rlimit(60)]
pub fn simulate_postseason(teams: Vec<Team>, filter: &str) -> (r: (
    Team,
    ConferenceData,
    ConferenceData,
    RoundData,
    Vec<GameEvent>,
))
    requires
        conf_count(teams@, true) >= 10,
        conf_count(teams@, false) >= 10,
        forall|i: int| 0 <= i < teams@.len() ==> elo_ok(#[trigger] teams@[i].elo as int, 30),
    ensures
        exists|j: int| 0 <= j < teams@.len() && same_identity(r.0, #[trigger] teams@[j]),
        elo_ok(r.0.elo as int, 0),
        round_result_ok(r.3),
        r.3.team_a_wins == 4 ==> r.0.name == r.3.team_a,
        r.3.team_b_wins == 4 ==> r.0.name == r.3.team_b,
        forall|i: int| 0 <= i < 4 ==> round_result_ok(#[trigger] r.1.round_1@[i]),
        forall|i: int| 0 <= i < 2 ==> round_result_ok(#[trigger] r.1.semifinals@[i]),
        round_result_ok(r.1.finals),
        forall|i: int| 0 <= i < 4 ==> round_result_ok(#[trigger] r.2.round_1@[i]),
        forall|i: int| 0 <= i < 2 ==> round_result_ok(#[trigger] r.2.semifinals@[i]),
        round_result_ok(r.2.finals),
        r.3.team_a == round_winner_name(r.1.finals),
        r.3.team_b == round_winner_name(r.2.finals),
        conference_name(teams@, true, r.3.team_a),
        conference_name(teams@, false, r.3.team_b),
        forall|i: int|
            0 <= i < 3 ==> conference_name(teams@, true, (#[trigger] r.1.play_in@[i]).home)
                && conference_name(teams@, true, r.1.play_in@[i].away),
        forall|i: int|
            0 <= i < 4 ==> conference_name(teams@, true, (#[trigger] r.1.round_1@[i]).team_a)
                && conference_name(teams@, true, r.1.round_1@[i].team_b),
        forall|i: int|
            0 <= i < 2 ==> conference_name(teams@, true, (#[trigger] r.1.semifinals@[i]).team_a)
                && conference_name(teams@, true, r.1.semifinals@[i].team_b),
        conference_name(teams@, true, r.1.finals.team_a),
        conference_name(teams@, true, r.1.finals.team_b),
        forall|i: int|
            0 <= i < 3 ==> conference_name(teams@, false, (#[trigger] r.2.play_in@[i]).home)
                && conference_name(teams@, false, r.2.play_in@[i].away),
        forall|i: int|
            0 <= i < 4 ==> conference_name(teams@, false, (#[trigger] r.2.round_1@[i]).team_a)
                && conference_name(teams@, false, r.2.round_1@[i].team_b),
        forall|i: int|
            0 <= i < 2 ==> conference_name(teams@, false, (#[trigger] r.2.semifinals@[i]).team_a)
                && conference_name(teams@, false, r.2.semifinals@[i].team_b),
        conference_name(teams@, false, r.2.finals.team_a),
        conference_name(teams@, false, r.2.finals.team_b),
        is_wildcard(filter@) ==> r.4@.len() == conference_games(r.1) + conference_games(r.2)
            + series_games(r.3),
{
    let (west, east) = partition(teams);
    proof {
        assert forall|i: int| 0 <= i < west@.len() implies elo_ok(
            #[trigger] west@[i].elo as int,
            30,
        ) by {
            let j = choose|j: int| 0 <= j < teams@.len() && west@[i] == teams@[j];
        }
        assert forall|i: int| 0 <= i < east@.len() implies elo_ok(
            #[trigger] east@[i].elo as int,
            30,
        ) by {
            let j = choose|j: int| 0 <= j < teams@.len() && east@[i] == teams@[j];
        }
    }
    let ghost west_seq = west@;
    let ghost east_seq = east@;
    let west_bracket = ConferenceBracket::new("West".to_owned(), west);
    let (west_winner, west_data, mut events) = west_bracket.simulate(filter);
    let east_bracket = ConferenceBracket::new("East".to_owned(), east);
    let (east_winner, east_data, mut ev) = east_bracket.simulate(filter);
    events.append(&mut ev);
    let ghost ww = west_winner;
    let ghost ew = east_winner;
    let finals = Round::new("Finals".to_owned(), west_winner, east_winner);
    let (champion, finals_data, mut ev) = finals.simulate(filter);
    events.append(&mut ev);
    proof {
        assert(exists|j: int| 0 <= j < teams@.len() && same_identity(champion, #[trigger] teams@[j]))
            by {
            if same_identity(champion, ww) {
                let i = choose|i: int|
                    0 <= i < 10 && same_identity(ww, #[trigger] west_seq[i]) && same_record(
                        ww,
                        west_seq[i],
                    );
                let j = choose|j: int| 0 <= j < teams@.len() && west_seq[i] == teams@[j];
                assert(same_identity(champion, teams@[j]));
            } else {
                let i = choose|i: int|
                    0 <= i < 10 && same_identity(ew, #[trigger] east_seq[i]) && same_record(
                        ew,
                        east_seq[i],
                    );
                let j = choose|j: int| 0 <= j < teams@.len() && east_seq[i] == teams@[j];
                assert(same_identity(champion, teams@[j]));
            }
        }
        // every West-tree label names a West team of the input, and every
        // East-tree label an East team
        assert forall|nm: String| name_among(west_seq, 10, nm) implies conference_name(
            teams@,
            true,
            nm,
        ) by {
            lemma_lift_conference_name(nm, west_seq, teams@, true);
        }
        assert forall|nm: String| name_among(east_seq, 10, nm) implies conference_name(
            teams@,
            false,
            nm,
        ) by {
            assert forall|i: int| 0 <= i < east_seq.len() implies ((
            #[trigger] east_seq[i]).conference is West) == false by {}
            lemma_lift_conference_name(nm, east_seq, teams@, false);
        }
    }
    (champion, west_data, east_data, finals_data, events)
}

} // verus!
