//! The score parts of `/execute`: `if|unless score` tests and `store
//! result|success score`.
use vstd::prelude::*;

use crate::scoreboard::{
    packets_view, update_score_result, PacketView, Scoreboard, ScoreboardPacket, ScoreboardScore,
    ScoreView, ScoreboardView,
};
use crate::team::names_view;
use crate::text_component::{copy_format_option, copy_text_option};

verus! {

/// How two scores are compared.
#[derive(Clone, Copy, Debug, PartialEq, Eq, Structural)]
pub enum ScoreComparison {
    LessThan,
    LessThanOrEqual,
    Equal,
    GreaterThanOrEqual,
    GreaterThan,
}

/// A range of scores, each bound optional and inclusive.
#[derive(Clone, Copy, Debug, PartialEq, Eq, Structural)]
pub struct IntRange {
    pub min: Option<i32>,
    pub max: Option<i32>,
}

pub open spec fn in_range(range: IntRange, value: i32) -> bool {
    (range.min matches Some(m) ==> m <= value) && (range.max matches Some(m) ==> value <= m)
}

impl IntRange {
    /// Whether `value` lies in the range.
    pub fn matches(&self, value: i32) -> (r: bool)
        ensures
            r == in_range(*self, value),
    {
        let above = match self.min {
            Some(m) => m <= value,
            None => true,
        };
        let below = match self.max {
            Some(m) => value <= m,
            None => true,
        };
        above && below
    }
}

/// What a target score is tested against.
#[derive(Debug, PartialEq, Eq)]
pub enum ScoreTest {
    /// Another holder's score in another objective.
    Compare { comparison: ScoreComparison, source: String, source_objective: String },
    /// A range of values.
    Matches(IntRange),
}

/// Why a score test or a store failed.
#[derive(Clone, Copy, Debug, PartialEq, Eq, Structural)]
pub enum ExecuteError {
    /// A named objective does not exist.
    ObjectiveNotFound,
}

pub open spec fn compares(comparison: ScoreComparison, target: i32, source: i32) -> bool {
    match comparison {
        ScoreComparison::LessThan => target < source,
        ScoreComparison::LessThanOrEqual => target <= source,
        ScoreComparison::Equal => target == source,
        ScoreComparison::GreaterThanOrEqual => target >= source,
        ScoreComparison::GreaterThan => target > source,
    }
}

/// A range accepts exactly the scores between its bounds, both included;
/// a missing bound does not limit that side.
pub proof fn lemma_range_bounds(a: i32, b: i32, value: i32)
    ensures
        in_range(IntRange { min: None, max: None }, value),
        in_range(IntRange { min: Some(a), max: None }, value) <==> a as int <= value as int,
        in_range(IntRange { min: None, max: Some(b) }, value) <==> value as int <= b as int,
        in_range(IntRange { min: Some(a), max: Some(b) }, value) <==> (a as int <= value as int && value as int
            <= b as int),
        in_range(IntRange { min: Some(value), max: Some(value) }, value),
{
}

/// Each comparison is the integer order it names: `<=` holds exactly when
/// the target's score is below or equal to the source's, `>=` is `<=` with
/// the scores swapped, `>` is `<` swapped, `=` is both `<=` and `>=`, and
/// exactly one of `<`, `=` and `>` holds.
pub proof fn lemma_comparisons_order(a: i32, b: i32)
    ensures
        compares(ScoreComparison::LessThan, a, b) <==> (a as int) < (b as int),
        compares(ScoreComparison::LessThanOrEqual, a, b) <==> ((a as int) < (b as int) || a == b),
        compares(ScoreComparison::LessThanOrEqual, a, a),
        compares(ScoreComparison::GreaterThanOrEqual, a, a),
        compares(ScoreComparison::Equal, a, a),
        !compares(ScoreComparison::LessThan, a, a),
        !compares(ScoreComparison::GreaterThan, a, a),
        compares(ScoreComparison::GreaterThanOrEqual, a, b) <==> compares(ScoreComparison::LessThanOrEqual, b, a),
        compares(ScoreComparison::GreaterThan, a, b) <==> compares(ScoreComparison::LessThan, b, a),
        compares(ScoreComparison::Equal, a, b) <==> (compares(ScoreComparison::LessThanOrEqual, a, b)
            && compares(ScoreComparison::GreaterThanOrEqual, a, b)),
        compares(ScoreComparison::LessThanOrEqual, a, b) <==> (compares(ScoreComparison::LessThan, a, b)
            || compares(ScoreComparison::Equal, a, b)),
        compares(ScoreComparison::LessThan, a, b) as int + compares(ScoreComparison::Equal, a, b) as int
            + compares(ScoreComparison::GreaterThan, a, b) as int == 1,
{
}

/// With both objectives and both scores present, a score comparison
/// succeeds with whether the target's score stands in the named order to
/// the source's: for `<=` (and `>=`), equal scores pass.
pub proof fn lemma_score_comparison(
    v: ScoreboardView,
    target: Seq<char>,
    target_objective: Seq<char>,
    c: ScoreComparison,
    source: Seq<char>,
    source_objective: Seq<char>,
    range: IntRange,
)
    requires
        v.has_objective(target_objective),
        v.has_objective(source_objective),
        v.has_score(target_objective, target),
        v.has_score(source_objective, source),
    ensures
        ({
            let t = v.score(target_objective, target).value as int;
            let s = v.score(source_objective, source).value as int;
            let r = score_test_result(v, target, target_objective, Some((c, source, source_objective)), range);
            &&& r is Ok
            &&& c == ScoreComparison::LessThan ==> r == Ok::<bool, ExecuteError>(t < s)
            &&& c == ScoreComparison::LessThanOrEqual ==> r == Ok::<bool, ExecuteError>(t <= s)
            &&& c == ScoreComparison::Equal ==> r == Ok::<bool, ExecuteError>(t == s)
            &&& c == ScoreComparison::GreaterThanOrEqual ==> r == Ok::<bool, ExecuteError>(t >= s)
            &&& c == ScoreComparison::GreaterThan ==> r == Ok::<bool, ExecuteError>(t > s)
        }),
{
}

/// The outcome of testing `target`'s score in `target_objective`: an
/// objective that does not exist is an error; a holder without a score fails
/// the test.
pub open spec fn score_test_result(
    v: ScoreboardView,
    target: Seq<char>,
    target_objective: Seq<char>,
    comparison: Option<(ScoreComparison, Seq<char>, Seq<char>)>,
    range: IntRange,
) -> Result<bool, ExecuteError> {
    if !v.has_objective(target_objective) {
        Err(ExecuteError::ObjectiveNotFound)
    } else if !v.has_score(target_objective, target) {
        Ok(false)
    } else {
        let value = v.score(target_objective, target).value;
        match comparison {
            None => Ok(in_range(range, value)),
            Some((c, source, source_objective)) => if !v.has_objective(source_objective) {
                Err(ExecuteError::ObjectiveNotFound)
            } else if !v.has_score(source_objective, source) {
                Ok(false)
            } else {
                Ok(compares(c, value, v.score(source_objective, source).value))
            },
        }
    }
}

pub open spec fn test_parts(test: ScoreTest) -> (Option<(ScoreComparison, Seq<char>, Seq<char>)>, IntRange) {
    match test {
        ScoreTest::Compare { comparison, source, source_objective } => (
            Some((comparison, source@, source_objective@)),
            IntRange { min: None, max: None },
        ),
        ScoreTest::Matches(range) => (None, range),
    }
}

/// Tests `target`'s score in `target_objective`; see [`score_test_result`].
pub fn score_condition_matches(
    scoreboard: &Scoreboard,
    target: &str,
    target_objective: &str,
    test: &ScoreTest,
) -> (r: Result<bool, ExecuteError>)
    ensures
        r == score_test_result(scoreboard@, target@, target_objective@, test_parts(*test).0, test_parts(*test).1),
{
    if scoreboard.get_objective(target_objective).is_none() {
        return Err(ExecuteError::ObjectiveNotFound);
    }
    let value = match scoreboard.get_player_score_info(target, target_objective) {
        Some(score) => score.value,
        None => {
            return Ok(false);
        },
    };
    match test {
        ScoreTest::Matches(range) => Ok(range.matches(value)),
        ScoreTest::Compare { comparison, source, source_objective } => {
            if scoreboard.get_objective(source_objective.as_str()).is_none() {
                return Err(ExecuteError::ObjectiveNotFound);
            }
            let other = match scoreboard.get_player_score_info(source.as_str(), source_objective.as_str()) {
                Some(score) => score.value,
                None => {
                    return Ok(false);
                },
            };
            Ok(match comparison {
                ScoreComparison::LessThan => value < other,
                ScoreComparison::LessThanOrEqual => value <= other,
                ScoreComparison::Equal => value == other,
                ScoreComparison::GreaterThanOrEqual => value >= other,
                ScoreComparison::GreaterThan => value > other,
            })
        },
    }
}

/// Whether `execute if|unless score` keeps running: an `unless` test
/// (`negated`) keeps running when the test fails.
pub fn score_condition_passes(
    scoreboard: &Scoreboard,
    target: &str,
    target_objective: &str,
    test: &ScoreTest,
    negated: bool,
) -> (r: Result<bool, ExecuteError>)
    ensures
        match score_test_result(scoreboard@, target@, target_objective@, test_parts(*test).0, test_parts(*test).1) {
            Ok(m) => r == Ok::<bool, ExecuteError>(m != negated),
            Err(e) => r == Err::<bool, ExecuteError>(e),
        },
{
    match score_condition_matches(scoreboard, target, target_objective, test) {
        Ok(m) => Ok(m != negated),
        Err(e) => Err(e),
    }
}

/// The score that storing `value` for `target` writes: it keeps the display
/// name and number format of the score it replaces, and its lock (a new
/// score is locked).
pub open spec fn stored_value_score(v: ScoreboardView, target: Seq<char>, objective: Seq<char>, value: i32) -> ScoreView {
    if v.has_score(objective, target) {
        let old = v.score(objective, target);
        ScoreView {
            entity_name: target,
            objective_name: objective,
            value,
            display_name: old.display_name,
            number_format: old.number_format,
            locked: old.locked,
        }
    } else {
        ScoreView {
            entity_name: target,
            objective_name: objective,
            value,
            display_name: None,
            number_format: None,
            locked: true,
        }
    }
}

/// The state and packets after storing `value` for each of `targets`, in
/// order.
pub open spec fn stored_all(v: ScoreboardView, targets: Seq<Seq<char>>, objective: Seq<char>, value: i32) -> (
    ScoreboardView,
    Seq<PacketView>,
)
    decreases targets.len(),
{
    if targets.len() == 0 {
        (v, Seq::empty())
    } else {
        let (v1, p1) = stored_all(v, targets.drop_last(), objective, value);
        let (v2, p2) = update_score_result(v1, stored_value_score(v1, targets.last(), objective, value));
        (v2, p1 + p2)
    }
}

/// The value that `execute store` writes: the command's success as 0 or 1,
/// or its result.
pub open spec fn store_value(store_success: bool, success: bool, result: i32) -> i32 {
    if store_success {
        if success {
            1
        } else {
            0
        }
    } else {
        result
    }
}

/// Stores a command's outcome as the score of each of `targets` in
/// `objective`; nothing happens when the objective does not exist. Returns
/// the packets the updates send.
pub fn store_score(
    scoreboard: &mut Scoreboard,
    targets: &Vec<String>,
    objective: &str,
    store_success: bool,
    success: bool,
    result: i32,
) -> (r: Vec<ScoreboardPacket>)
    requires
        old(scoreboard)@.wf(),
    ensures
        final(scoreboard)@.wf(),
        !old(scoreboard)@.has_objective(objective@) ==> final(scoreboard)@ == old(scoreboard)@ && r@.len() == 0,
        old(scoreboard)@.has_objective(objective@) ==> (final(scoreboard)@, packets_view(r@)) == stored_all(
            old(scoreboard)@,
            names_view(targets@),
            objective@,
            store_value(store_success, success, result),
        ),
{
    let mut packets: Vec<ScoreboardPacket> = Vec::new();
    if scoreboard.get_objective(objective).is_none() {
        return packets;
    }
    let value: i32 = if store_success {
        if success {
            1
        } else {
            0
        }
    } else {
        result
    };
    let ghost v0 = scoreboard@;
    let ghost names = names_view(targets@);
    let mut i: usize = 0;
    proof {
        assert(packets_view(packets@) =~= Seq::<PacketView>::empty());
        assert(names.take(0) =~= Seq::<Seq<char>>::empty());
    }
    while i < targets.len()
        invariant
            i <= targets@.len(),
            names == names_view(targets@),
            scoreboard@.wf(),
            (scoreboard@, packets_view(packets@)) == stored_all(v0, names.take(i as int), objective@, value),
        decreases targets@.len() - i,
    {
        let target = &targets[i];
        proof {
            assert(names.take(i + 1).drop_last() =~= names.take(i as int));
            assert(names.take(i + 1).last() == target@);
        }
        let score = match scoreboard.get_player_score_info(target.as_str(), objective) {
            Some(existing) => ScoreboardScore {
                entity_name: target.clone(),
                objective_name: objective.to_owned(),
                value,
                display_name: copy_text_option(&existing.display_name),
                number_format: copy_format_option(&existing.number_format),
                locked: existing.locked,
            },
            None => ScoreboardScore {
                entity_name: target.clone(),
                objective_name: objective.to_owned(),
                value,
                display_name: None,
                number_format: None,
                locked: true,
            },
        };
        let ghost prev = scoreboard@;
        let ghost score_view = score@;
        proof {
            assert(score_view == stored_value_score(prev, target@, objective@, value));
        }
        let mut more = scoreboard.update_score(score);
        let ghost added = packets_view(more@);
        let ghost before = packets_view(packets@);
        packets.append(&mut more);
        proof {
            assert(packets_view(packets@) =~= before + added);
        }
        i = i + 1;
    }
    proof {
        assert(names.take(names.len() as int) =~= names);
    }
    packets
}

} // verus!
