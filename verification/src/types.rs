//! Data model: teams, recorded games, and the event emitted for every
//! processed or simulated game.

use vstd::prelude::*;

verus! {

/// The two conferences of the league.
#[derive(Debug, Clone, Copy, PartialEq, Eq, Structural)]
pub enum Conference {
    West,
    East,
}

/// The six fixed divisions.
#[derive(Debug, Clone, Copy, PartialEq, Eq, Structural)]
pub enum Division {
    Atlantic,
    Central,
    Southeast,
    Northwest,
    Pacific,
    Southwest,
}

/// One team: immutable identity and classification, plus a rating (micro
/// points) and a season record, both mutated as games are processed.
#[derive(Debug, Clone)]
pub struct Team {
    pub name: String,
    pub full_name: String,
    pub conference: Conference,
    pub division: Division,
    pub elo: i64,
    pub season_wins: u32,
    pub season_loses: u32,
}

/// One recorded or scheduled regular-season game: indices into the team
/// store, a timestamp for chronological order, and final scores.
#[derive(Debug, Clone)]
pub struct Game {
    pub date: i64,
    pub home_team_idx: usize,
    pub away_team_idx: usize,
    pub home_score: u32,
    pub away_score: u32,
}

/// Raw team data as the ingestion collaborator hands it over.
#[derive(Debug, Clone)]
pub struct TeamData {
    pub id: u32,
    pub abbreviation: String,
    pub city: String,
    pub conference: Conference,
    pub division: Division,
    pub full_name: String,
    pub name: String,
}

impl Team {
    /// A fresh team starts at the baseline rating with a zero record.
    pub fn from_data(value: TeamData) -> (t: Team)
        ensures
            t.name == value.abbreviation,
            t.full_name == value.full_name,
            t.conference == value.conference,
            t.division == value.division,
            t.elo == crate::utils::START_ELO,
            t.season_wins == 0,
            t.season_loses == 0,
    {
        Team {
            name: value.abbreviation,
            full_name: value.full_name,
            conference: value.conference,
            division: value.division,
            elo: crate::utils::START_ELO,
            season_wins: 0,
            season_loses: 0,
        }
    }
}

impl Team {
    /// An exact copy, spelled out field by field so the equality is known
    /// to the verifier.
    pub fn duplicate(&self) -> (t: Team)
        ensures
            t == *self,
    {
        Team {
            name: self.name.clone(),
            full_name: self.full_name.clone(),
            conference: self.conference,
            division: self.division,
            elo: self.elo,
            season_wins: self.season_wins,
            season_loses: self.season_loses,
        }
    }
}

/// Total rating mass of a team list.
pub open spec fn sum_elo(s: Seq<Team>) -> int
    decreases s.len(),
{
    if s.len() == 0 {
        0
    } else {
        s[0].elo + sum_elo(s.drop_first())
    }
}

/// Total season wins of a team list.
pub open spec fn sum_wins(s: Seq<Team>) -> int
    decreases s.len(),
{
    if s.len() == 0 {
        0
    } else {
        s[0].season_wins + sum_wins(s.drop_first())
    }
}

/// Total season losses of a team list.
pub open spec fn sum_loses(s: Seq<Team>) -> int
    decreases s.len(),
{
    if s.len() == 0 {
        0
    } else {
        s[0].season_loses + sum_loses(s.drop_first())
    }
}

/// Replacing one element moves the rating total by the rating difference.
pub proof fn lemma_sum_elo_update(s: Seq<Team>, i: int, t: Team)
    requires
        0 <= i < s.len(),
    ensures
        sum_elo(s.update(i, t)) == sum_elo(s) - s[i].elo + t.elo,
    decreases s.len(),
{
    if i == 0 {
        assert(s.update(0, t).drop_first() =~= s.drop_first());
    } else {
        assert(s.update(i, t).drop_first() =~= s.drop_first().update(i - 1, t));
        lemma_sum_elo_update(s.drop_first(), i - 1, t);
    }
}

/// Replacing one element moves the win total by the win difference.
pub proof fn lemma_sum_wins_update(s: Seq<Team>, i: int, t: Team)
    requires
        0 <= i < s.len(),
    ensures
        sum_wins(s.update(i, t)) == sum_wins(s) - s[i].season_wins + t.season_wins,
    decreases s.len(),
{
    if i == 0 {
        assert(s.update(0, t).drop_first() =~= s.drop_first());
    } else {
        assert(s.update(i, t).drop_first() =~= s.drop_first().update(i - 1, t));
        lemma_sum_wins_update(s.drop_first(), i - 1, t);
    }
}

/// Replacing one element moves the loss total by the loss difference.
pub proof fn lemma_sum_loses_update(s: Seq<Team>, i: int, t: Team)
    requires
        0 <= i < s.len(),
    ensures
        sum_loses(s.update(i, t)) == sum_loses(s) - s[i].season_loses + t.season_loses,
    decreases s.len(),
{
    if i == 0 {
        assert(s.update(0, t).drop_first() =~= s.drop_first());
    } else {
        assert(s.update(i, t).drop_first() =~= s.drop_first().update(i - 1, t));
        lemma_sum_loses_update(s.drop_first(), i - 1, t);
    }
}

/// How many teams of the list belong to the West conference (or to the
/// East, with `west` false).
pub open spec fn conf_count(s: Seq<Team>, west: bool) -> int
    decreases s.len(),
{
    if s.len() == 0 {
        0
    } else {
        conf_count(s.drop_last(), west) + (if (s.last().conference is West) == west {
            1int
        } else {
            0int
        })
    }
}

/// Everything one game outcome exposes for reporting: both sides' ratings
/// before and after, the expected score, the applied change, and who won.
#[derive(Debug, Clone)]
pub struct GameEvent {
    pub label: String,
    pub home_name: String,
    pub away_name: String,
    pub home_win: bool,
    pub expected: u64,
    pub change: i64,
    pub home_old: i64,
    pub home_new: i64,
    pub away_old: i64,
    pub away_new: i64,
}

} // verus!
