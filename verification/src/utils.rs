//! The rating model: expected score and rating update, in fixed-point
//! integer arithmetic, plus small shared helpers.
//!
//! A rating is an `i64` in micro points (1000.0 is `1_000_000_000`).
//! A probability is a `u64` numerator over `PROB_SCALE`. The expected
//! score of a rating gap `d` (in micro points) follows the logistic curve
//! `1 / (1 + 10^(d / 400_000_000))`, evaluated by linear interpolation
//! between tabulated powers of ten at a granularity of 25 rating points.

use vstd::prelude::*;

verus! {

use vstd::string::StrSliceExecFns;

/// Denominator of all probability values: a probability `p` stands for
/// `p / PROB_SCALE`.
pub const PROB_SCALE: u64 = 1_000_000;

/// Micro points per whole rating point.
pub const ELO_SCALE: i64 = 1_000_000;

/// Starting rating of every team: 1000 points.
pub const START_ELO: i64 = 1_000_000_000;

/// Largest rating change one game can cause, in micro points: the K factor
/// (32) times `PROB_SCALE`.
pub const MAX_SHIFT: i64 = 32_000_000;

/// Ratings are kept within this symmetric bound so that update arithmetic
/// can never overflow an `i64`.
pub const ELO_BOUND: i64 = 1_000_000_000_000_000_000;

/// A rating is acceptable with `slack` games of headroom: it stays within
/// `ELO_BOUND` even after `slack` further games each moving it by at most
/// `MAX_SHIFT`.
pub open spec fn elo_ok(e: int, slack: int) -> bool {
    -(ELO_BOUND as int) + slack * (MAX_SHIFT as int) <= e
        <= (ELO_BOUND as int) - slack * (MAX_SHIFT as int)
}

/// Headroom is monotone: a rating safe for many games is safe for fewer.
pub proof fn lemma_elo_ok_mono(e: int, s1: int, s2: int)
    requires
        elo_ok(e, s1),
        s2 <= s1,
    ensures
        elo_ok(e, s2),
{
}

/// `10^(k/16)` in millionths, for one 400-point block split into 16
/// segments of 25 rating points each.
pub open spec fn pow_table(k: int) -> int {
    if k <= 0 {
        1_000_000
    } else if k == 1 {
        1_154_782
    } else if k == 2 {
        1_333_521
    } else if k == 3 {
        1_539_927
    } else if k == 4 {
        1_778_279
    } else if k == 5 {
        2_053_525
    } else if k == 6 {
        2_371_374
    } else if k == 7 {
        2_738_420
    } else if k == 8 {
        3_162_278
    } else if k == 9 {
        3_651_741
    } else if k == 10 {
        4_216_965
    } else if k == 11 {
        4_869_675
    } else if k == 12 {
        5_623_413
    } else if k == 13 {
        6_493_816
    } else if k == 14 {
        7_498_942
    } else if k == 15 {
        8_659_643
    } else {
        10_000_000
    }
}

/// `10^q` for whole 400-point blocks, up to the saturation threshold.
pub open spec fn pow_ten(q: int) -> int {
    if q <= 0 {
        1
    } else if q == 1 {
        10
    } else if q == 2 {
        100
    } else if q == 3 {
        1_000
    } else if q == 4 {
        10_000
    } else if q == 5 {
        100_000
    } else if q == 6 {
        1_000_000
    } else if q == 7 {
        10_000_000
    } else if q == 8 {
        100_000_000
    } else if q == 9 {
        1_000_000_000
    } else {
        10_000_000_000
    }
}

/// Win probability of the lower-rated side of a positive rating gap `d`
/// (micro points): `PROB_SCALE / (1 + 10^(d/400_000_000))` by table
/// interpolation, clamped into `[1, PROB_SCALE/2 - 1]` so the result is
/// never zero and never reaches one half.
pub open spec fn underdog_prob(d: int) -> int {
    if d / 400_000_000 >= 11 {
        1
    } else {
        let r = d % 400_000_000;
        let k = r / 25_000_000;
        let u = r % 25_000_000;
        let interp = pow_table(k) + u * (pow_table(k + 1) - pow_table(k)) / 25_000_000;
        let raw = 1_000_000_000_000int / (1_000_000 + pow_ten(d / 400_000_000) * interp);
        if raw < 1 {
            1
        } else if raw > 499_999 {
            499_999
        } else {
            raw
        }
    }
}

/// Expected score of the first rating against the second: the probability,
/// over `PROB_SCALE`, that the first side wins. Equal ratings give exactly
/// one half; otherwise the favourite gets the complement of the underdog's
/// probability, so the two sides always sum to `PROB_SCALE`.
pub open spec fn expected_spec(a: int, b: int) -> int {
    if a == b {
        500_000
    } else if a > b {
        1_000_000 - underdog_prob(a - b)
    } else {
        underdog_prob(b - a)
    }
}

/// The underdog's probability is clamped strictly between zero and one
/// half.
pub proof fn lemma_underdog_range(d: int)
    ensures
        1 <= underdog_prob(d) <= 499_999,
{
}

/// The expected score is strictly between zero and one.
pub proof fn lemma_expected_range(a: int, b: int)
    ensures
        1 <= expected_spec(a, b) <= 999_999,
{
    if a > b {
        lemma_underdog_range(a - b);
    } else if a < b {
        lemma_underdog_range(b - a);
    }
}

/// The two sides' expected scores always sum to exactly one.
pub proof fn lemma_expected_symmetry(a: int, b: int)
    ensures
        expected_spec(a, b) + expected_spec(b, a) == 1_000_000,
{
}

/// The higher-rated side is always favoured: its expected score exceeds
/// one half.
pub proof fn lemma_expected_favours_higher(a: int, b: int)
    requires
        a > b,
    ensures
        expected_spec(a, b) > 500_000,
{
    lemma_underdog_range(a - b);
}

fn power_entry(k: u64) -> (v: u64)
    requires
        k <= 16,
    ensures
        v == pow_table(k as int),
{
    match k {
        0 => 1_000_000,
        1 => 1_154_782,
        2 => 1_333_521,
        3 => 1_539_927,
        4 => 1_778_279,
        5 => 2_053_525,
        6 => 2_371_374,
        7 => 2_738_420,
        8 => 3_162_278,
        9 => 3_651_741,
        10 => 4_216_965,
        11 => 4_869_675,
        12 => 5_623_413,
        13 => 6_493_816,
        14 => 7_498_942,
        15 => 8_659_643,
        _ => 10_000_000,
    }
}

fn power_block(q: u64) -> (v: u64)
    requires
        q <= 10,
    ensures
        v == pow_ten(q as int),
{
    match q {
        0 => 1,
        1 => 10,
        2 => 100,
        3 => 1_000,
        4 => 10_000,
        5 => 100_000,
        6 => 1_000_000,
        7 => 10_000_000,
        8 => 100_000_000,
        9 => 1_000_000_000,
        _ => 10_000_000_000,
    }
}

fn underdog(d: u64) -> (p: u64)
    ensures
        p == underdog_prob(d as int),
        1 <= p <= 499_999,
{
    proof {
        lemma_underdog_range(d as int);
    }
    let q = d / 400_000_000;
    if q >= 11 {
        return 1;
    }
    let r = d % 400_000_000;
    let k = r / 25_000_000;
    let u = r % 25_000_000;
    let base = power_entry(k);
    let next = power_entry(k + 1);
    assert(pow_table(k as int) < pow_table(k as int + 1) <= 10_000_000);
    let diff = next - base;
    assert(u * diff <= 25_000_000 * 1_340_357) by (nonlinear_arith)
        requires
            u < 25_000_000,
            diff <= 1_340_357,
    ;
    let frac = (u * diff) / 25_000_000;
    assert(frac < diff) by (nonlinear_arith)
        requires
            u < 25_000_000,
            0 < diff,
            frac == (u * diff) / 25_000_000,
    ;
    let interp = base + frac;
    let block = power_block(q);
    assert(block * interp <= 10_000_000_000 * 10_000_000) by (nonlinear_arith)
        requires
            block <= 10_000_000_000,
            interp <= 10_000_000,
    ;
    let t = block * interp;
    let raw = 1_000_000_000_000 / (1_000_000 + t);
    if raw < 1 {
        1
    } else if raw > 499_999 {
        499_999
    } else {
        raw
    }
}

/// Expected score of rating `a` against rating `b`, over `PROB_SCALE`.
pub fn expected(a: i64, b: i64) -> (p: u64)
    requires
        elo_ok(a as int, 0),
        elo_ok(b as int, 0),
    ensures
        p == expected_spec(a as int, b as int),
        1 <= p <= 999_999,
{
    proof {
        lemma_expected_range(a as int, b as int);
    }
    if a == b {
        500_000
    } else if a > b {
        let s = underdog((a - b) as u64);
        1_000_000 - s
    } else {
        underdog((b - a) as u64)
    }
}

/// Rating change applied to the first side after a game: the K factor
/// times the gap between the actual outcome (one for a win, zero for a
/// loss) and the expected score, in micro points.
pub open spec fn rating_change(a: int, b: int, first_won: bool) -> int {
    if first_won {
        32 * (1_000_000 - expected_spec(a, b))
    } else {
        -32 * expected_spec(a, b)
    }
}

/// One game's rating change never reaches `MAX_SHIFT` in magnitude.
pub proof fn lemma_change_bounded(a: int, b: int, first_won: bool)
    ensures
        -(MAX_SHIFT as int) < rating_change(a, b, first_won) < MAX_SHIFT as int,
{
    lemma_expected_range(a, b);
}

/// The rating exchanged between two sides is zero-sum: the winner gains
/// exactly what the loser gives up, so the pair's total rating is
/// conserved.
pub proof fn lemma_update_zero_sum(a: int, b: int, first_won: bool)
    ensures
        (a + rating_change(a, b, first_won)) - a == -((b - rating_change(
            a,
            b,
            first_won,
        )) - b),
        (a + rating_change(a, b, first_won)) + (b - rating_change(a, b, first_won)) == a + b,
{
}

/// Apply one game outcome to a rating pair. Returns the two new ratings
/// and the change applied to the first side.
pub fn update(a: i64, b: i64, first_won: bool) -> (r: (i64, i64, i64))
    requires
        elo_ok(a as int, 1),
        elo_ok(b as int, 1),
    ensures
        r.2 == rating_change(a as int, b as int, first_won),
        r.0 == a + r.2,
        r.1 == b - r.2,
        elo_ok(r.0 as int, 0),
        elo_ok(r.1 as int, 0),
{
    proof {
        lemma_elo_ok_mono(a as int, 1, 0);
        lemma_elo_ok_mono(b as int, 1, 0);
        lemma_change_bounded(a as int, b as int, first_won);
    }
    let p = expected(a, b);
    let change: i64 = if first_won {
        32 * ((1_000_000 - p) as i64)
    } else {
        -(32 * (p as i64))
    };
    (a + change, b - change, change)
}

/// Character-for-character string equality.
pub fn str_eq(a: &str, b: &str) -> (r: bool)
    ensures
        r == (a@ == b@),
{
    let alen = a.unicode_len();
    let blen = b.unicode_len();
    if alen != blen {
        return false;
    }
    let mut i: usize = 0;
    while i < alen
        invariant
            0 <= i <= alen,
            alen == a@.len(),
            alen == b@.len(),
            forall|j: int| 0 <= j < i ==> a@[j] == b@[j],
        decreases alen - i,
    {
        if a.get_char(i) != b.get_char(i) {
            return false;
        }
        i += 1;
    }
    proof {
        assert(a@ =~= b@);
    }
    true
}

/// The reporting filter that selects every game.
pub open spec fn is_wildcard(f: Seq<char>) -> bool {
    f.len() == 1 && f[0] == '*'
}

pub fn wildcard(f: &str) -> (r: bool)
    ensures
        r == is_wildcard(f@),
{
    f.unicode_len() == 1 && f.get_char(0) == '*'
}

/// Whether a game between the two named sides should be surfaced for
/// reporting under the given team filter.
pub open spec fn spec_filter_matches(filter: Seq<char>, home: Seq<char>, away: Seq<char>) -> bool {
    is_wildcard(filter) || filter == home || filter == away
}

pub fn filter_matches(filter: &str, home: &str, away: &str) -> (r: bool)
    ensures
        r == spec_filter_matches(filter@, home@, away@),
{
    wildcard(filter) || str_eq(filter, home) || str_eq(filter, away)
}

/// A reply names a usable reporting filter: empty to ignore, the wildcard,
/// or the abbreviation of a team in the store.
pub fn valid_team_filter(reply: &str, teams: &Vec<crate::types::Team>) -> (r: bool)
    ensures
        r == (reply@.len() == 0 || is_wildcard(reply@) || exists|i: int|
            0 <= i < teams@.len() && (#[trigger] teams@[i].name)@ == reply@),
{
    if reply.unicode_len() == 0 || wildcard(reply) {
        return true;
    }
    let mut i: usize = 0;
    while i < teams.len()
        invariant
            0 <= i <= teams@.len(),
            forall|j: int| 0 <= j < i ==> (#[trigger] teams@[j].name)@ != reply@,
        decreases teams@.len() - i,
    {
        if str_eq(teams[i].name.as_str(), reply) {
            return true;
        }
        i += 1;
    }
    false
}

/// How a reply to a yes/no question is read: a leading 'y' or 'Y' means
/// yes, a leading 'n' or 'N' means no, anything else is not an answer.
pub open spec fn spec_answer(s: Seq<char>) -> Option<bool> {
    if s.len() >= 1 && (s[0] == 'y' || s[0] == 'Y') {
        Some(true)
    } else if s.len() >= 1 && (s[0] == 'n' || s[0] == 'N') {
        Some(false)
    } else {
        None
    }
}

pub fn answer_value(reply: &str) -> (r: Option<bool>)
    ensures
        r == spec_answer(reply@),
{
    if reply.unicode_len() == 0 {
        return None;
    }
    let c = reply.get_char(0);
    if c == 'y' || c == 'Y' {
        Some(true)
    } else if c == 'n' || c == 'N' {
        Some(false)
    } else {
        None
    }
}

} // verus!
