//! Processing recorded games: each final score feeds the rating update,
//! with the home side winning exactly when it scored more. Season records
//! are not touched here; they are filled by the season simulation.

use vstd::prelude::*;

use crate::simulate::{
    after_game_away, after_game_home, game_indices_ok, game_update, same_identity, same_record,
};
use crate::types::{lemma_sum_elo_update, sum_elo, Game, GameEvent, Team};
use crate::utils::{
    elo_ok, expected_spec, filter_matches, lemma_change_bounded, lemma_elo_ok_mono, rating_change,
    spec_filter_matches,
};

verus! {

/// Apply one recorded game to the team store: the home side won exactly
/// when it scored more (tied scores are not modelled and are rejected by
/// contract). Returns the game's event when the filter selects it.
pub fn process(game: &Game, teams: &mut Vec<Team>, filter: &str) -> (r: Option<GameEvent>)
    requires
        game_indices_ok(*game, old(teams)@.len() as int),
        game.home_score != game.away_score,
        elo_ok(old(teams)@[game.home_team_idx as int].elo as int, 1),
        elo_ok(old(teams)@[game.away_team_idx as int].elo as int, 1),
    ensures
        ({
            let home0 = old(teams)@[game.home_team_idx as int];
            let away0 = old(teams)@[game.away_team_idx as int];
            let win = game.home_score > game.away_score;
            &&& final(teams)@ == old(teams)@.update(
                game.home_team_idx as int,
                after_game_home(home0, away0, win, false),
            ).update(game.away_team_idx as int, after_game_away(home0, away0, win, false))
            &&& (r is Some <==> spec_filter_matches(filter@, home0.name@, away0.name@))
            &&& (r matches Some(ev) ==> ev.home_win == win && ev.home_name == home0.name
                && ev.away_name == away0.name && ev.expected == expected_spec(
                home0.elo as int,
                away0.elo as int,
            ) && ev.change == rating_change(home0.elo as int, away0.elo as int, win)
                && ev.home_old == home0.elo && ev.away_old == away0.elo)
        }),
{
    let mut home = teams[game.home_team_idx].duplicate();
    let mut away = teams[game.away_team_idx].duplicate();
    let win = game.home_score > game.away_score;
    let ev = game_update("", &mut home, &mut away, win, false);
    let h = game.home_team_idx;
    let a = game.away_team_idx;
    teams[h] = home;
    teams[a] = away;
    if filter_matches(filter, &ev.home_name, &ev.away_name) {
        Some(ev)
    } else {
        None
    }
}

/// One recorded game is acceptable against a store of `n` teams: valid,
/// distinct indices and an untied score.
pub open spec fn recorded_game_ok(g: Game, n: int) -> bool {
    game_indices_ok(g, n) && g.home_score != g.away_score
}

/// The team store after one recorded game: both participants carry the
/// rating exchange for the recorded outcome.
pub open spec fn after_recorded_game(s: Seq<Team>, g: Game) -> Seq<Team> {
    let home0 = s[g.home_team_idx as int];
    let away0 = s[g.away_team_idx as int];
    let win = g.home_score > g.away_score;
    s.update(g.home_team_idx as int, after_game_home(home0, away0, win, false)).update(
        g.away_team_idx as int,
        after_game_away(home0, away0, win, false),
    )
}

/// The team store after the first `k` recorded games, applied in input
/// order: the left fold of the recorded update.
pub open spec fn process_fold(s: Seq<Team>, games: Seq<Game>, k: int) -> Seq<Team>
    decreases k,
{
    if k <= 0 {
        s
    } else {
        after_recorded_game(process_fold(s, games, k - 1), games[k - 1])
    }
}

/// Whether the reporting filter selects a game, judged on the store as it
/// stands when the game is processed.
pub open spec fn event_selected(s: Seq<Team>, g: Game, filter: Seq<char>) -> bool {
    spec_filter_matches(
        filter,
        s[g.home_team_idx as int].name@,
        s[g.away_team_idx as int].name@,
    )
}

/// How many of the first `k` recorded games the filter selects.
pub open spec fn selected_count(orig: Seq<Team>, games: Seq<Game>, filter: Seq<char>, k: int) -> int
    decreases k,
{
    if k <= 0 {
        0
    } else {
        selected_count(orig, games, filter, k - 1) + (if event_selected(
            process_fold(orig, games, k - 1),
            games[k - 1],
            filter,
        ) {
            1int
        } else {
            0int
        })
    }
}

/// The event is the one that game `k` of the recorded pass emits: the
/// filter selects that game, and every recorded value is taken from the
/// store as the fold leaves it just before the game.
pub open spec fn recorded_event_ok(
    orig: Seq<Team>,
    games: Seq<Game>,
    filter: Seq<char>,
    ev: GameEvent,
    k: int,
) -> bool {
    let s = process_fold(orig, games, k);
    let g = games[k];
    let home0 = s[g.home_team_idx as int];
    let away0 = s[g.away_team_idx as int];
    let win = g.home_score > g.away_score;
    &&& event_selected(s, g, filter)
    &&& ev.home_name == home0.name
    &&& ev.away_name == away0.name
    &&& ev.home_win == win
    &&& ev.expected == expected_spec(home0.elo as int, away0.elo as int)
    &&& ev.change == rating_change(home0.elo as int, away0.elo as int, win)
    &&& ev.home_old == home0.elo
    &&& ev.away_old == away0.elo
}

/// The event is one that some game of the recorded pass emits.
pub open spec fn event_recorded_somewhere(
    orig: Seq<Team>,
    games: Seq<Game>,
    filter: Seq<char>,
    ev: GameEvent,
) -> bool {
    exists|k: int| 0 <= k < games.len() && recorded_event_ok(orig, games, filter, ev, k)
}

/// Process a chronological list of recorded games: every game moves the
/// two ratings by the zero-sum update, so the total rating mass is
/// conserved; identities and season records are untouched.
#[verifier::rlimit(100)]
pub fn process_games(teams: &mut Vec<Team>, games: &Vec<Game>, filter: &str) -> (events: Vec<
    GameEvent,
>)
    requires
        forall|k: int|
            0 <= k < games@.len() ==> recorded_game_ok(#[trigger] games@[k], old(teams)@.len() as int),
        forall|i: int|
            0 <= i < old(teams)@.len() ==> elo_ok(
                #[trigger] old(teams)@[i].elo as int,
                games@.len() as int,
            ),
    ensures
        final(teams)@ == process_fold(old(teams)@, games@, games@.len() as int),
        final(teams)@.len() == old(teams)@.len(),
        forall|i: int|
            0 <= i < old(teams)@.len() ==> same_identity(#[trigger] final(teams)@[i], old(teams)@[i])
                && same_record(final(teams)@[i], old(teams)@[i]),
        sum_elo(final(teams)@) == sum_elo(old(teams)@),
        forall|i: int|
            0 <= i < old(teams)@.len() ==> elo_ok(#[trigger] final(teams)@[i].elo as int, 0),
        events@.len() == selected_count(old(teams)@, games@, filter@, games@.len() as int),
        forall|j: int|
            0 <= j < events@.len() ==> event_recorded_somewhere(
                old(teams)@,
                games@,
                filter@,
                #[trigger] events@[j],
            ),
{
    let ghost orig = old(teams)@;
    let ghost n = games@.len() as int;
    let mut events: Vec<GameEvent> = Vec::new();
    let mut k: usize = 0;
    while k < games.len()
        invariant
            0 <= k <= games@.len(),
            n == games@.len(),
            teams@.len() == orig.len(),
            forall|j: int| 0 <= j < n ==> recorded_game_ok(#[trigger] games@[j], orig.len() as int),
            forall|i: int|
                0 <= i < orig.len() ==> same_identity(#[trigger] teams@[i], orig[i]) && same_record(
                    teams@[i],
                    orig[i],
                ),
            sum_elo(teams@) == sum_elo(orig),
            forall|i: int| 0 <= i < orig.len() ==> elo_ok(#[trigger] teams@[i].elo as int, n - k),
            teams@ == process_fold(orig, games@, k as int),
            events@.len() == selected_count(orig, games@, filter@, k as int),
            forall|j: int|
                0 <= j < events@.len() ==> event_recorded_somewhere(
                    orig,
                    games@,
                    filter@,
                    #[trigger] events@[j],
                ),
        decreases games@.len() - k,
    {
        let ghost pre = teams@;
        let ghost pre_events = events@;
        let g = &games[k];
        let r = process(g, teams, filter);
        proof {
            let home0 = pre[g.home_team_idx as int];
            let away0 = pre[g.away_team_idx as int];
            let w = g.home_score > g.away_score;
            lemma_change_bounded(home0.elo as int, away0.elo as int, w);
            let nh = after_game_home(home0, away0, w, false);
            let na = after_game_away(home0, away0, w, false);
            lemma_sum_elo_update(pre, g.home_team_idx as int, nh);
            lemma_sum_elo_update(pre.update(g.home_team_idx as int, nh), g.away_team_idx as int, na);
            assert forall|i: int| 0 <= i < orig.len() implies elo_ok(
                #[trigger] teams@[i].elo as int,
                n - k - 1,
            ) by {
                if i != g.home_team_idx as int && i != g.away_team_idx as int {
                    lemma_elo_ok_mono(teams@[i].elo as int, n - k, n - k - 1);
                }
            }
            assert(teams@ == after_recorded_game(pre, games@[k as int]));
            assert(process_fold(orig, games@, k as int + 1) == after_recorded_game(
                process_fold(orig, games@, k as int),
                games@[k as int],
            ));
            assert(selected_count(orig, games@, filter@, k as int + 1) == selected_count(
                orig,
                games@,
                filter@,
                k as int,
            ) + (if event_selected(process_fold(orig, games@, k as int), games@[k as int], filter@) {
                1int
            } else {
                0int
            }));
        }
        if let Some(ev) = r {
            events.push(ev);
        }
        proof {
            assert forall|j: int| 0 <= j < events@.len() implies event_recorded_somewhere(
                orig,
                games@,
                filter@,
                #[trigger] events@[j],
            ) by {
                if j < pre_events.len() {
                    assert(events@[j] == pre_events[j]);
                } else {
                    assert(events@.len() == pre_events.len() + 1);
                    assert(j == pre_events.len());
                    assert(recorded_event_ok(orig, games@, filter@, events@[j], k as int));
                }
            }
        }
        k = k + 1;
    }
    events
}

} // verus!
