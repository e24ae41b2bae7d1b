//! Laws of the scoreboard operations, stated over what the state answers:
//! which objectives, scores, slots, teams and tracked objectives it has.
//! Each operation's contract fixes the state after it; these lemmas say
//! what that means for every name and key.
use vstd::prelude::*;

use crate::display_slot::{lemma_display_slot_name_round_trip, slot_from_name, slot_name, DisplaySlot};
use crate::scoreboard::{
    empty_scoreboard, load_objectives, load_scores, load_slots, load_teams, loaded, objective_data,
    objective_from_data, render_type_name, saved, saved_slots, score_data, score_from_data, team_data, team_named,
    tracked_from, unique_objective_names, slot_packet, state_packets, team_create_packet, tracked_objective_packets,
    held_by, holds_score, joined_teams, leave_team, name_is, name_is_not, unique_names, not_held_by, objective_changed, objective_named, reset_all_packets, score_of,
    score_packet, set_display_result, slot_is, stored_score, tracked_in, update_score_result, ObjectiveView,
    PacketView, ScoreView, ScoreboardView,
};
use crate::scoreboard_data::{team_from_data, ObjectiveDataView, ScoreDataView, ScoreboardDataView, TeamDataView};
use crate::packets::RenderType;
use crate::scoreboard_data::options_from_flags;
use crate::team::{collision_rule_name, lemma_team_rule_names_round_trip, visibility_name, CollisionRule, NameTagVisibility, TeamView};
use crate::text::{
    first_where, lemma_filter_elements, lemma_filter_unique_keys, lemma_first_where_push, lemma_first_where_some, lemma_first_where_update,
};

verus! {

/// Adding an objective whose name is new: afterwards it is there under its
/// name, every other name has the objective it had (or none), and teams,
/// scores, slots and the tracked objectives are as before. (When the name is
/// taken, `add_objective` leaves the state as it was.)
pub proof fn lemma_add_objective_frame(v: ScoreboardView, o: ObjectiveView)
    requires
        !v.has_objective(o.name),
    ensures
        ({
            let w = v.with_objective(o);
            &&& w.has_objective(o.name) && w.objective(o.name) == o
            &&& forall|n: Seq<char>|
                n != o.name ==> #[trigger] w.has_objective(n) == v.has_objective(n) && (v.has_objective(n)
                    ==> w.objective(n) == v.objective(n))
            &&& w.teams == v.teams && w.scores == v.scores
            &&& w.display_objectives == v.display_objectives && w.tracked_names == v.tracked_names
        }),
{
    let w = v.with_objective(o);
    lemma_first_where_push(v.objectives, objective_named(o.name), o);
    assert forall|n: Seq<char>| n != o.name implies #[trigger] w.has_objective(n) == v.has_objective(n) && (
    v.has_objective(n) ==> w.objective(n) == v.objective(n)) by {
        lemma_first_where_push(v.objectives, objective_named(n), o);
        lemma_first_where_some(v.objectives, objective_named(n));
    }
}

/// Modifying an existing objective: afterwards every name has an objective
/// exactly when it had one, the modified one carries the new settings, every
/// other objective is as it was, and nothing else changed.
pub proof fn lemma_modify_objective_frame(v: ScoreboardView, w: ScoreboardView, name: Seq<char>, o: ObjectiveView)
    requires
        v.has_objective(name),
        objective_changed(v, w, name, o),
    ensures
        w.has_objective(name) && w.objective(name) == o,
        forall|n: Seq<char>|
            #[trigger] w.has_objective(n) == v.has_objective(n) && (n != name && v.has_objective(n)
                ==> w.objective(n) == v.objective(n)),
        w.teams == v.teams && w.scores == v.scores && w.display_objectives == v.display_objectives
            && w.tracked_names == v.tracked_names && w.by_criterion == v.by_criterion,
{
    let i = v.objective_index(name)->0;
    lemma_first_where_some(v.objectives, objective_named(name));
    lemma_first_where_update(v.objectives, objective_named(name), i, o);
    assert forall|n: Seq<char>|
        #[trigger] w.has_objective(n) == v.has_objective(n) && (n != name && v.has_objective(n) ==> w.objective(n)
            == v.objective(n)) by {
        lemma_first_where_update(v.objectives, objective_named(n), i, o);
        lemma_first_where_some(v.objectives, objective_named(n));
    }
}

/// Setting a score: for a missing objective nothing changes and nothing is
/// sent. Otherwise the score of its objective and holder is the stored one
/// (its value, lock and format as given, its display name the holder's name
/// when the objective auto-updates), every other score is as it was, and
/// one score packet is sent exactly when clients know the objective.
#[verifier::spinoff_prover]
#[verifier::rlimit(40)]
pub proof fn lemma_update_score_frame(v: ScoreboardView, s: ScoreView)
    requires
        v.wf(),
    ensures
        ({
            let (w, packets) = update_score_result(v, s);
            &&& !v.has_objective(s.objective_name) ==> w == v && packets.len() == 0
            &&& v.has_objective(s.objective_name) ==> {
                &&& w.has_score(s.objective_name, s.entity_name)
                &&& w.score(s.objective_name, s.entity_name) == stored_score(v, s)
                &&& w.score(s.objective_name, s.entity_name).value == s.value
                &&& w.score(s.objective_name, s.entity_name).locked == s.locked
                &&& w.score(s.objective_name, s.entity_name).number_format == s.number_format
                &&& forall|o: Seq<char>, e: Seq<char>|
                    !(o == s.objective_name && e == s.entity_name) ==> #[trigger] w.has_score(o, e) == v.has_score(
                        o,
                        e,
                    ) && (v.has_score(o, e) ==> w.score(o, e) == v.score(o, e))
                &&& w.objectives == v.objectives && w.teams == v.teams && w.display_objectives
                    == v.display_objectives && w.tracked_names == v.tracked_names
                &&& (packets.len() > 0) == v.is_tracked(s.objective_name)
                &&& v.is_tracked(s.objective_name) ==> packets == seq![score_packet(stored_score(v, s), true)]
            }
        }),
{
    if v.has_objective(s.objective_name) {
        let t = stored_score(v, s);
        let w = v.with_score(t);
        let key = score_of(s.objective_name, s.entity_name);
        lemma_first_where_some(v.scores, key);
        match v.score_index(s.objective_name, s.entity_name) {
            Some(i) => {
                lemma_first_where_update(v.scores, key, i, t);
                assert forall|o: Seq<char>, e: Seq<char>|
                    !(o == s.objective_name && e == s.entity_name) implies #[trigger] w.has_score(o, e) == v.has_score(
                        o,
                        e,
                    ) && (v.has_score(o, e) ==> w.score(o, e) == v.score(o, e)) by {
                    lemma_first_where_update(v.scores, score_of(o, e), i, t);
                    lemma_first_where_some(v.scores, score_of(o, e));
                }
            },
            None => {
                lemma_first_where_push(v.scores, key, t);
                assert forall|o: Seq<char>, e: Seq<char>|
                    !(o == s.objective_name && e == s.entity_name) implies #[trigger] w.has_score(o, e) == v.has_score(
                        o,
                        e,
                    ) && (v.has_score(o, e) ==> w.score(o, e) == v.score(o, e)) by {
                    lemma_first_where_push(v.scores, score_of(o, e), t);
                    lemma_first_where_some(v.scores, score_of(o, e));
                }
            },
        }
    }
}

/// `s` with the element at `i` removed still holds every other element.
proof fn lemma_remove_keeps(s: Seq<Seq<char>>, i: int, j: int)
    requires
        0 <= i < s.len(),
        0 <= j < s.len(),
        i != j,
    ensures
        s.remove(i).contains(s[j]),
{
    if j < i {
        assert(s.remove(i)[j] == s[j]);
    } else {
        assert(s.remove(i)[j - 1] == s[j]);
    }
}

/// The slot binding of `slot` after binding it to `name`, and of every other
/// slot.
proof fn lemma_with_slot_reads(v: ScoreboardView, slot: DisplaySlot, name: Option<Seq<char>>)
    ensures
        v.with_slot(slot, name).display_objective(slot) == name,
        forall|s2: DisplaySlot|
            s2 != slot ==> #[trigger] v.with_slot(slot, name).display_objective(s2) == v.display_objective(s2),
{
    let w = v.with_slot(slot, name);
    let x = (slot, name);
    lemma_first_where_some(v.display_objectives, slot_is(slot));
    match v.slot_index(slot) {
        Some(i) => {
            lemma_first_where_update(v.display_objectives, slot_is(slot), i, x);
            assert forall|s2: DisplaySlot| s2 != slot implies #[trigger] w.display_objective(s2) == v.display_objective(
                s2,
            ) by {
                lemma_first_where_update(v.display_objectives, slot_is(s2), i, x);
                lemma_first_where_some(v.display_objectives, slot_is(s2));
            }
        },
        None => {
            lemma_first_where_push(v.display_objectives, slot_is(slot), x);
            assert forall|s2: DisplaySlot| s2 != slot implies #[trigger] w.display_objective(s2) == v.display_objective(
                s2,
            ) by {
                lemma_first_where_push(v.display_objectives, slot_is(s2), x);
                lemma_first_where_some(v.display_objectives, slot_is(s2));
            }
        },
    }
}

/// Binding `slot` to `name` (or clearing it): afterwards the slot shows
/// `name` and every other slot what it showed; an existing objective it now
/// shows is known to clients; the objective it showed before, when it is
/// another one and no slot shows it any more, is no longer known to clients;
/// the slot packet is among those sent; objectives, scores and teams are as
/// before.
#[verifier::spinoff_prover]
#[verifier::rlimit(40)]
pub proof fn lemma_set_display_frame(v: ScoreboardView, slot: DisplaySlot, name: Option<Seq<char>>)
    requires
        v.wf(),
    ensures
        ({
            let (w, packets) = set_display_result(v, slot, name);
            &&& w.display_objective(slot) == name
            &&& forall|s2: DisplaySlot| s2 != slot ==> #[trigger] w.display_objective(s2) == v.display_objective(s2)
            &&& name matches Some(n) ==> (v.has_objective(n) ==> w.is_tracked(n))
            &&& v.display_objective(slot) matches Some(o) ==> (name != Some(o) && !w.is_displayed(o)
                ==> !w.is_tracked(o))
            &&& packets.contains(
                PacketView::DisplayObjective {
                    slot,
                    objective_name: match name {
                        Some(n) => n,
                        None => Seq::empty(),
                    },
                },
            )
            &&& w.objectives == v.objectives && w.scores == v.scores && w.teams == v.teams
        }),
{
    let (v1, p1) = match name {
        Some(n) => v.track(n),
        None => (v, Seq::empty()),
    };
    let v2 = v1.with_slot(slot, name);
    let (w, packets) = set_display_result(v, slot, name);
    lemma_with_slot_reads(v1, slot, name);
    assert(v1.display_objectives == v.display_objectives);
    assert(w.display_objectives == v2.display_objectives);
    assert forall|s2: DisplaySlot| s2 != slot implies #[trigger] w.display_objective(s2) == v.display_objective(
        s2,
    ) by {
        assert(v2.display_objective(s2) == v1.display_objective(s2));
    }
    // The tracked names stay unique through tracking.
    assert(crate::scoreboard::unique_names(v1.tracked_names)) by {
        if let Some(n) = name {
            if !v.is_tracked(n) && v.has_objective(n) {
                let t = v1.tracked_names;
                assert forall|i: int, j: int| 0 <= i < j < t.len() implies t[i] != t[j] by {
                    if j == t.len() - 1 {
                        assert(v.tracked_names[i] == t[i]);
                        assert(v.tracked_names.contains(t[i]));
                    }
                }
            }
        }
    }
    if let Some(n) = name {
        if v.has_objective(n) {
            assert(v1.is_tracked(n)) by {
                if !v.is_tracked(n) {
                    assert(v1.tracked_names[v1.tracked_names.len() - 1] == n);
                }
            }
            let ti = choose|j: int| 0 <= j < v1.tracked_names.len() && v1.tracked_names[j] == n;
            match v.display_objective(slot) {
                Some(o) => {
                    if name != Some(o) && !v2.is_displayed(o) {
                        lemma_first_where_some(v1.tracked_names, name_is(o));
                        match v1.tracked_index(o) {
                            Some(i) => {
                                lemma_remove_keeps(v1.tracked_names, i, ti);
                            },
                            None => {},
                        }
                    }
                },
                None => {},
            }
        }
    }
    if let Some(o) = v.display_objective(slot) {
        if name != Some(o) && !w.is_displayed(o) {
            lemma_first_where_some(v1.tracked_names, name_is(o));
            match v1.tracked_index(o) {
                Some(i) => {
                    let t = v1.tracked_names.remove(i);
                    assert forall|k: int| 0 <= k < t.len() implies t[k] != o by {
                        if k < i {
                            assert(t[k] == v1.tracked_names[k]);
                        } else {
                            assert(t[k] == v1.tracked_names[k + 1]);
                        }
                    }
                },
                None => {
                    assert forall|k: int| 0 <= k < v1.tracked_names.len() implies v1.tracked_names[k] != o by {
                        if v1.tracked_names[k] == o {
                            assert(name_is(o)(v1.tracked_names[k]));
                        }
                    }
                },
            }
        }
    }
    assert(packets[p1.len() as int] == PacketView::DisplayObjective {
        slot,
        objective_name: match name {
            Some(n) => n,
            None => Seq::empty(),
        },
    });
}

/// Resetting every score of `entity`: afterwards it holds no score, every
/// other holder keeps exactly the scores it had, and the final packet resets
/// all its scores exactly when it held any (nothing is sent otherwise);
/// objectives, teams, slots and tracked objectives are as before.
#[verifier::spinoff_prover]
#[verifier::rlimit(40)]
pub proof fn lemma_reset_all_frame(v: ScoreboardView, entity: Seq<char>)
    requires
        v.wf(),
    ensures
        ({
            let w = ScoreboardView { scores: v.scores.filter(not_held_by(entity)), ..v };
            &&& forall|o: Seq<char>| !#[trigger] w.has_score(o, entity)
            &&& forall|o: Seq<char>, e: Seq<char>|
                e != entity ==> #[trigger] w.has_score(o, e) == v.has_score(o, e) && (v.has_score(o, e) ==> w.score(
                    o,
                    e,
                ) == v.score(o, e))
            &&& holds_score(v, entity) ==> reset_all_packets(v, entity).last() == PacketView::ResetScore {
                entity_name: entity,
                objective_name: None,
            }
            &&& !holds_score(v, entity) ==> reset_all_packets(v, entity).len() == 0
        }),
{
    let f = v.scores.filter(not_held_by(entity));
    let w = ScoreboardView { scores: f, ..v };
    lemma_filter_elements(v.scores, not_held_by(entity));
    assert forall|o: Seq<char>| !#[trigger] w.has_score(o, entity) by {
        assert forall|k: int| 0 <= k < f.len() implies !score_of(o, entity)(#[trigger] f[k]) by {
            assert(not_held_by(entity)(f[k]));
        }
    }
    assert forall|o: Seq<char>, e: Seq<char>| e != entity implies #[trigger] w.has_score(o, e) == v.has_score(o, e)
        && (v.has_score(o, e) ==> w.score(o, e) == v.score(o, e)) by {
        let key = score_of(o, e);
        lemma_first_where_some(v.scores, key);
        lemma_first_where_some(f, key);
        if v.has_score(o, e) {
            let i = v.score_index(o, e)->0;
            assert(not_held_by(entity)(v.scores[i]));
            assert(f.contains(v.scores[i]));
            let k = choose|k: int| 0 <= k < f.len() && f[k] == v.scores[i];
            assert(key(f[k]));
            let k2 = w.score_index(o, e)->0;
            assert(v.scores.contains(f[k2]));
            let m = choose|m: int| 0 <= m < v.scores.len() && v.scores[m] == f[k2];
            assert(m == i) by {
                if m < i {
                    assert(key(v.scores[m]));
                } else if m > i {
                    assert(!(v.scores[i].objective_name == v.scores[m].objective_name && v.scores[i].entity_name
                        == v.scores[m].entity_name));
                }
            }
        }
        if w.has_score(o, e) {
            let k2 = w.score_index(o, e)->0;
            assert(v.scores.contains(f[k2]));
            let m = choose|m: int| 0 <= m < v.scores.len() && v.scores[m] == f[k2];
            assert(key(v.scores[m]));
        }
    }
    let removed = v.scores.filter(held_by(entity));
    lemma_filter_elements(v.scores, held_by(entity));
    if holds_score(v, entity) {
        let i = choose|i: int| 0 <= i < v.scores.len() && #[trigger] v.scores[i].entity_name == entity;
        assert(held_by(entity)(v.scores[i]));
        assert(removed.contains(v.scores[i]));
    } else {
        if removed.len() > 0 {
            assert(held_by(entity)(removed[0]));
            assert(v.scores.contains(removed[0]));
            let m = choose|m: int| 0 <= m < v.scores.len() && v.scores[m] == removed[0];
            assert(v.scores[m].entity_name == entity);
        }
        lemma_filter_elements(removed, tracked_in(v));
        assert(removed.filter(tracked_in(v)).len() == 0);
    }
}

/// Filtering twice by the same test filters once.
proof fn lemma_filter_twice(s: Seq<Seq<char>>, p: spec_fn(Seq<char>) -> bool)
    ensures
        s.filter(p).filter(p) == s.filter(p),
    decreases s.len(),
{
    reveal(Seq::filter);
    if s.len() > 0 {
        lemma_filter_twice(s.drop_last(), p);
        let f = s.drop_last().filter(p);
        if p(s.last()) {
            f.lemma_filter_push(s.last(), p);
        }
    }
}

/// The players of a team after `player` joined team `team_name`, compared
/// with before.
proof fn lemma_joined_team_players(t: TeamView, team_name: Seq<char>, player: Seq<char>)
    requires
        unique_names(t.players),
    ensures
        ({
            let u = leave_team(t, team_name, player);
            &&& u.name == t.name
            &&& u.players.filter(name_is_not(player)) == t.players.filter(name_is_not(player))
            &&& unique_names(u.players)
            &&& t.name != team_name ==> !u.players.contains(player)
        }),
{
    let u = leave_team(t, team_name, player);
    lemma_filter_twice(t.players, name_is_not(player));
    lemma_filter_elements(t.players, name_is_not(player));
    lemma_filter_unique_keys(t.players, name_is_not(player), |x: Seq<char>| x);
    if t.name != team_name && !t.players.contains(player) {
        assert(u == t);
        assert(t.players.filter(name_is_not(player)) =~= t.players) by {
            reveal(Seq::filter);
            lemma_filter_all(t.players, player);
        }
    }
    if u.players.contains(player) && t.name != team_name {
        let k = choose|k: int| 0 <= k < u.players.len() && u.players[k] == player;
        if t.players.contains(player) {
            assert(name_is_not(player)(u.players[k]));
        }
    }
}

/// Filtering out a name that does not occur keeps everything.
proof fn lemma_filter_all(s: Seq<Seq<char>>, player: Seq<char>)
    requires
        !s.contains(player),
    ensures
        s.filter(name_is_not(player)) == s,
    decreases s.len(),
{
    reveal(Seq::filter);
    if s.len() > 0 {
        assert(!s.drop_last().contains(player)) by {
            if s.drop_last().contains(player) {
                let k = choose|k: int| 0 <= k < s.drop_last().len() && s.drop_last()[k] == player;
                assert(s[k] == player);
            }
        }
        lemma_filter_all(s.drop_last(), player);
        assert(s.last() != player) by {
            assert(s[s.len() - 1] == s.last());
        }
        assert(s.drop_last().push(s.last()) =~= s);
    }
}

/// A player joining a team, when no team lists a player twice: afterwards
/// the team lists the player exactly once, no other team lists them, every
/// team keeps its name, and every team lists its other players in the same
/// order as before.
#[verifier::spinoff_prover]
#[verifier::rlimit(40)]
pub proof fn lemma_join_team_once(v: ScoreboardView, team_name: Seq<char>, player: Seq<char>)
    requires
        v.wf(),
        v.has_team(team_name),
        forall|k: int| 0 <= k < v.teams.len() ==> unique_names(#[trigger] v.teams[k].players),
    ensures
        ({
            let ts = joined_teams(v, team_name, player);
            &&& ts.len() == v.teams.len()
            &&& forall|k: int| 0 <= k < ts.len() ==> (#[trigger] ts[k]).name == v.teams[k].name
            &&& forall|k: int|
                0 <= k < ts.len() ==> (#[trigger] ts[k]).players.filter(name_is_not(player))
                    == v.teams[k].players.filter(name_is_not(player))
            &&& forall|k: int| 0 <= k < ts.len() ==> unique_names((#[trigger] ts[k]).players)
            &&& forall|k: int|
                0 <= k < ts.len() ==> ((#[trigger] ts[k]).players.contains(player) <==> ts[k].name == team_name)
        }),
{
    let ts = joined_teams(v, team_name, player);
    let t = v.team_index(team_name)->0;
    lemma_first_where_some(v.teams, crate::scoreboard::team_named(team_name));
    let target = v.teams[t];
    assert forall|k: int| 0 <= k < ts.len() implies (#[trigger] ts[k]).name == v.teams[k].name
        && ts[k].players.filter(name_is_not(player)) == v.teams[k].players.filter(name_is_not(player))
        && unique_names(ts[k].players) && (ts[k].players.contains(player) <==> ts[k].name == team_name) by {
        lemma_joined_team_players(v.teams[k], team_name, player);
        if k != t {
            assert(v.teams[k].name != team_name) by {
                if k < t {
                } else {
                    assert(v.teams[t].name != v.teams[k].name);
                }
            }
        } else {
            assert(leave_team(target, team_name, player) == target);
            if !target.players.contains(player) {
                let ps = target.players.push(player);
                target.players.lemma_filter_push(player, name_is_not(player));
                assert(ps[ps.len() - 1] == player);
                assert forall|i: int, j: int| 0 <= i < j < ps.len() implies ps[i] != ps[j] by {
                    if j == ps.len() - 1 {
                        assert(ps[i] == target.players[i]);
                        assert(target.players.contains(ps[i]));
                    }
                }
            }
        }
    }
}

// ---------------------------------------------------------------------------
// Loading saved data

/// Loading an objective: a name has an objective afterwards exactly when it
/// had one or is the loaded objective's.
proof fn lemma_put_objective_has(v: ScoreboardView, o: ObjectiveView, n: Seq<char>)
    ensures
        v.put_objective(o).has_objective(n) == (v.has_objective(n) || n == o.name),
        v.put_objective(o).scores == v.scores && v.put_objective(o).teams == v.teams,
        v.put_objective(o).display_objectives == v.display_objectives,
{
    lemma_first_where_some(v.objectives, objective_named(o.name));
    match v.objective_index(o.name) {
        Some(i) => {
            lemma_first_where_update(v.objectives, objective_named(n), i, o);
            lemma_first_where_update(v.objectives, objective_named(o.name), i, o);
        },
        None => {
            lemma_first_where_push(v.objectives, objective_named(n), o);
        },
    }
}

#[verifier::spinoff_prover]
#[verifier::rlimit(40)]
proof fn lemma_load_objectives(objs: Seq<ObjectiveDataView>)
    ensures
        forall|n: Seq<char>|
            #[trigger] load_objectives(empty_scoreboard(), objs).has_objective(n) <==> exists|i: int|
                0 <= i < objs.len() && #[trigger] objs[i].name == n,
        load_objectives(empty_scoreboard(), objs).scores.len() == 0,
        load_objectives(empty_scoreboard(), objs).teams.len() == 0,
        load_objectives(empty_scoreboard(), objs).display_objectives.len() == 0,
        unique_objective_names(objs) ==> load_objectives(empty_scoreboard(), objs).objectives == objs.map_values(
            |o: ObjectiveDataView| objective_from_data(o),
        ),
    decreases objs.len(),
{
    if objs.len() > 0 {
        let rest = objs.drop_last();
        lemma_load_objectives(rest);
        let w = load_objectives(empty_scoreboard(), rest);
        let o = objective_from_data(objs.last());
        assert forall|n: Seq<char>|
            #[trigger] load_objectives(empty_scoreboard(), objs).has_objective(n) <==> exists|i: int|
                0 <= i < objs.len() && #[trigger] objs[i].name == n by {
            lemma_put_objective_has(w, o, n);
            if exists|i: int| 0 <= i < objs.len() && #[trigger] objs[i].name == n {
                let i = choose|i: int| 0 <= i < objs.len() && #[trigger] objs[i].name == n;
                if i < objs.len() - 1 {
                    assert(rest[i].name == n);
                }
            }
            if w.has_objective(n) {
                let i = choose|i: int| 0 <= i < rest.len() && #[trigger] rest[i].name == n;
                assert(objs[i].name == n);
            }
        }
        lemma_put_objective_has(w, o, o.name);
        if unique_objective_names(objs) {
            assert(unique_objective_names(rest)) by {
                assert forall|i: int, j: int| 0 <= i < j < rest.len() implies rest[i].name != rest[j].name by {
                    assert(objs[i].name != objs[j].name);
                }
            }
            assert(!w.has_objective(o.name)) by {
                if w.has_objective(o.name) {
                    let i = choose|i: int| 0 <= i < rest.len() && #[trigger] rest[i].name == o.name;
                    assert(objs[i].name != objs[objs.len() - 1].name);
                }
            }
            assert(load_objectives(empty_scoreboard(), objs).objectives =~= objs.map_values(
                |o: ObjectiveDataView| objective_from_data(o),
            ));
        }
    }
}

pub open spec fn score_keys_unique(scores: Seq<ScoreDataView>) -> bool {
    forall|i: int, j: int|
        0 <= i < j < scores.len() ==> !(scores[i].objective_name == scores[j].objective_name
            && scores[i].entity_name == scores[j].entity_name)
}

proof fn lemma_with_score_has(v: ScoreboardView, t: ScoreView, o: Seq<char>, e: Seq<char>)
    ensures
        v.with_score(t).has_score(o, e) == (v.has_score(o, e) || (o == t.objective_name && e == t.entity_name)),
{
    lemma_first_where_some(v.scores, score_of(t.objective_name, t.entity_name));
    match v.score_index(t.objective_name, t.entity_name) {
        Some(i) => {
            lemma_first_where_update(v.scores, score_of(o, e), i, t);
            lemma_first_where_update(v.scores, score_of(t.objective_name, t.entity_name), i, t);
        },
        None => {
            lemma_first_where_push(v.scores, score_of(o, e), t);
        },
    }
}

#[verifier::spinoff_prover]
#[verifier::rlimit(40)]
proof fn lemma_load_scores(v: ScoreboardView, scores: Seq<ScoreDataView>)
    requires
        v.scores.len() == 0,
    ensures
        ({
            let w = load_scores(v, scores);
            &&& forall|o: Seq<char>, e: Seq<char>|
                #[trigger] w.has_score(o, e) <==> exists|i: int|
                    0 <= i < scores.len() && #[trigger] scores[i].objective_name == o && scores[i].entity_name == e
            &&& w.objectives == v.objectives && w.teams == v.teams && w.display_objectives == v.display_objectives
            &&& score_keys_unique(scores) ==> w.scores == scores.map_values(|s: ScoreDataView| score_from_data(s))
        }),
    decreases scores.len(),
{
    if scores.len() > 0 {
        let rest = scores.drop_last();
        lemma_load_scores(v, rest);
        let w = load_scores(v, rest);
        let t = score_from_data(scores.last());
        assert forall|o: Seq<char>, e: Seq<char>| #[trigger] load_scores(v, scores).has_score(o, e) <==> exists|i: int|
            0 <= i < scores.len() && #[trigger] scores[i].objective_name == o && scores[i].entity_name == e by {
            lemma_with_score_has(w, t, o, e);
            if exists|i: int|
                0 <= i < scores.len() && #[trigger] scores[i].objective_name == o && scores[i].entity_name == e {
                let i = choose|i: int|
                    0 <= i < scores.len() && #[trigger] scores[i].objective_name == o && scores[i].entity_name == e;
                if i < scores.len() - 1 {
                    assert(rest[i].objective_name == o && rest[i].entity_name == e);
                }
            }
            if w.has_score(o, e) {
                let i = choose|i: int|
                    0 <= i < rest.len() && #[trigger] rest[i].objective_name == o && rest[i].entity_name == e;
                assert(scores[i].objective_name == o && scores[i].entity_name == e);
            }
        }
        if score_keys_unique(scores) {
            assert(score_keys_unique(rest)) by {
                assert forall|i: int, j: int| 0 <= i < j < rest.len() implies !(rest[i].objective_name
                    == rest[j].objective_name && rest[i].entity_name == rest[j].entity_name) by {
                    assert(scores[i] == rest[i] && scores[j] == rest[j]);
                }
            }
            lemma_first_where_some(w.scores, score_of(t.objective_name, t.entity_name));
            assert(!w.has_score(t.objective_name, t.entity_name)) by {
                if w.has_score(t.objective_name, t.entity_name) {
                    let i = choose|i: int|
                        0 <= i < rest.len() && #[trigger] rest[i].objective_name == t.objective_name
                            && rest[i].entity_name == t.entity_name;
                    assert(scores[i] == rest[i]);
                }
            }
            assert(load_scores(v, scores).scores =~= scores.map_values(|s: ScoreDataView| score_from_data(s)));
        }
    }
}

pub open spec fn team_names_unique(teams: Seq<TeamDataView>) -> bool {
    forall|i: int, j: int| 0 <= i < j < teams.len() ==> teams[i].name != teams[j].name
}

proof fn lemma_with_team_has(v: ScoreboardView, t: TeamView, n: Seq<char>)
    ensures
        v.with_team(t).has_team(n) == (v.has_team(n) || n == t.name),
{
    lemma_first_where_some(v.teams, team_named(t.name));
    match v.team_index(t.name) {
        Some(i) => {
            lemma_first_where_update(v.teams, team_named(n), i, t);
            lemma_first_where_update(v.teams, team_named(t.name), i, t);
        },
        None => {
            lemma_first_where_push(v.teams, team_named(n), t);
        },
    }
}

#[verifier::spinoff_prover]
#[verifier::rlimit(40)]
proof fn lemma_load_teams(v: ScoreboardView, teams: Seq<TeamDataView>)
    requires
        v.teams.len() == 0,
    ensures
        ({
            let w = load_teams(v, teams);
            &&& forall|n: Seq<char>|
                #[trigger] w.has_team(n) <==> exists|i: int| 0 <= i < teams.len() && #[trigger] teams[i].name == n
            &&& w.objectives == v.objectives && w.scores == v.scores && w.display_objectives == v.display_objectives
            &&& team_names_unique(teams) ==> w.teams == teams.map_values(|t: TeamDataView| team_from_data(t))
        }),
    decreases teams.len(),
{
    if teams.len() > 0 {
        let rest = teams.drop_last();
        lemma_load_teams(v, rest);
        let w = load_teams(v, rest);
        let t = team_from_data(teams.last());
        assert forall|n: Seq<char>| #[trigger] load_teams(v, teams).has_team(n) <==> exists|i: int|
            0 <= i < teams.len() && #[trigger] teams[i].name == n by {
            lemma_with_team_has(w, t, n);
            if exists|i: int| 0 <= i < teams.len() && #[trigger] teams[i].name == n {
                let i = choose|i: int| 0 <= i < teams.len() && #[trigger] teams[i].name == n;
                if i < teams.len() - 1 {
                    assert(rest[i].name == n);
                }
            }
            if w.has_team(n) {
                let i = choose|i: int| 0 <= i < rest.len() && #[trigger] rest[i].name == n;
                assert(teams[i].name == n);
            }
        }
        if team_names_unique(teams) {
            assert(team_names_unique(rest)) by {
                assert forall|i: int, j: int| 0 <= i < j < rest.len() implies rest[i].name != rest[j].name by {
                    assert(teams[i] == rest[i] && teams[j] == rest[j]);
                }
            }
            lemma_first_where_some(w.teams, team_named(t.name));
            assert(!w.has_team(t.name)) by {
                if w.has_team(t.name) {
                    let i = choose|i: int| 0 <= i < rest.len() && #[trigger] rest[i].name == t.name;
                    assert(teams[i] == rest[i]);
                }
            }
            assert(load_teams(v, teams).teams =~= teams.map_values(|t: TeamDataView| team_from_data(t)));
        }
    }
}

/// The objective that the last saved binding of `slot` names, if any.
pub open spec fn last_binding(slots: Seq<(Seq<char>, Seq<char>)>, slot: DisplaySlot) -> Option<Seq<char>>
    decreases slots.len(),
{
    if slots.len() == 0 {
        None
    } else if slot_from_name(slots.last().0) == Some(slot) {
        Some(slots.last().1)
    } else {
        last_binding(slots.drop_last(), slot)
    }
}

pub open spec fn slots_unique(d: Seq<(DisplaySlot, Option<Seq<char>>)>) -> bool {
    forall|i: int, j: int| 0 <= i < j < d.len() ==> d[i].0 != d[j].0
}

proof fn lemma_with_slot_unique(v: ScoreboardView, slot: DisplaySlot, name: Option<Seq<char>>)
    requires
        slots_unique(v.display_objectives),
    ensures
        slots_unique(v.with_slot(slot, name).display_objectives),
{
    let d = v.display_objectives;
    let e = v.with_slot(slot, name).display_objectives;
    lemma_first_where_some(d, slot_is(slot));
    match v.slot_index(slot) {
        Some(i) => {
            assert forall|a: int, b: int| 0 <= a < b < e.len() implies e[a].0 != e[b].0 by {
                assert(e[a].0 == d[a].0 && e[b].0 == d[b].0);
            }
        },
        None => {
            assert forall|a: int, b: int| 0 <= a < b < e.len() implies e[a].0 != e[b].0 by {
                if b == e.len() - 1 {
                    assert(!slot_is(slot)(d[a]));
                }
            }
        },
    }
}

#[verifier::spinoff_prover]
#[verifier::rlimit(40)]
proof fn lemma_load_slots(v: ScoreboardView, slots: Seq<(Seq<char>, Seq<char>)>)
    requires
        v.display_objectives.len() == 0,
    ensures
        ({
            let w = load_slots(v, slots);
            &&& forall|slot: DisplaySlot| #[trigger] w.display_objective(slot) == last_binding(slots, slot)
            &&& slots_unique(w.display_objectives)
            &&& forall|k: int| 0 <= k < w.display_objectives.len() ==> (#[trigger] w.display_objectives[k]).1 is Some
            &&& w.objectives == v.objectives && w.scores == v.scores && w.teams == v.teams
        }),
    decreases slots.len(),
{
    if slots.len() == 0 {
        assert forall|slot: DisplaySlot| #[trigger] v.display_objective(slot) == last_binding(slots, slot) by {
            lemma_first_where_some(v.display_objectives, slot_is(slot));
        }
    } else {
        let rest = slots.drop_last();
        lemma_load_slots(v, rest);
        let w = load_slots(v, rest);
        let e = slots.last();
        match slot_from_name(e.0) {
            Some(s) => {
                lemma_with_slot_reads(w, s, Some(e.1));
                lemma_with_slot_unique(w, s, Some(e.1));
                let u = w.with_slot(s, Some(e.1));
                lemma_first_where_some(w.display_objectives, slot_is(s));
                assert forall|k: int| 0 <= k < u.display_objectives.len() implies (
                #[trigger] u.display_objectives[k]).1 is Some by {
                    if k < w.display_objectives.len() {
                        assert(w.display_objectives[k].1 is Some);
                    }
                }
            },
            None => {},
        }
    }
}

#[verifier::spinoff_prover]
#[verifier::rlimit(40)]
proof fn lemma_tracked_from(names: Seq<Seq<char>>, d: Seq<(DisplaySlot, Option<Seq<char>>)>, n: Seq<char>)
    ensures
        tracked_from(names, d).contains(n) <==> (names.contains(n) || exists|i: int|
            0 <= i < d.len() && #[trigger] d[i].1 == Some(n)),
    decreases d.len(),
{
    if d.len() > 0 {
        let rest = d.drop_last();
        lemma_tracked_from(names, rest, n);
        let r = tracked_from(names, rest);
        if exists|i: int| 0 <= i < d.len() && #[trigger] d[i].1 == Some(n) {
            let i = choose|i: int| 0 <= i < d.len() && #[trigger] d[i].1 == Some(n);
            if i < d.len() - 1 {
                assert(rest[i].1 == Some(n));
            } else {
                if !r.contains(n) {
                    assert(r.push(n)[r.len() as int] == n);
                }
            }
        }
        if exists|i: int| 0 <= i < rest.len() && #[trigger] rest[i].1 == Some(n) {
            let i = choose|i: int| 0 <= i < rest.len() && #[trigger] rest[i].1 == Some(n);
            assert(d[i].1 == Some(n));
        }
        if tracked_from(names, d).contains(n) && !r.contains(n) {
            let k = choose|k: int| 0 <= k < tracked_from(names, d).len() && tracked_from(names, d)[k] == n;
            assert(d[d.len() - 1].1 == Some(n));
        }
        if r.contains(n) {
            let k = choose|k: int| 0 <= k < r.len() && r[k] == n;
            match d.last().1 {
                Some(m) => {
                    if !r.contains(m) {
                        assert(r.push(m)[k] == n);
                    }
                },
                None => {},
            }
        }
    }
}

/// Loading saved data, whatever the scoreboard held before: the objectives,
/// teams and scores are exactly those the data names; each slot shows the
/// objective of its last saved binding; and clients know exactly the
/// objectives that some slot shows.
#[verifier::spinoff_prover]
#[verifier::rlimit(40)]
pub proof fn lemma_load_from_data_reads(d: ScoreboardDataView)
    ensures
        ({
            let w = loaded(d);
            &&& forall|n: Seq<char>|
                #[trigger] w.has_objective(n) <==> exists|i: int|
                    0 <= i < d.objectives.len() && #[trigger] d.objectives[i].name == n
            &&& forall|n: Seq<char>|
                #[trigger] w.has_team(n) <==> exists|i: int| 0 <= i < d.teams.len() && #[trigger] d.teams[i].name == n
            &&& forall|o: Seq<char>, e: Seq<char>|
                #[trigger] w.has_score(o, e) <==> exists|i: int|
                    0 <= i < d.scores.len() && #[trigger] d.scores[i].objective_name == o && d.scores[i].entity_name
                        == e
            &&& forall|slot: DisplaySlot| #[trigger] w.display_objective(slot) == last_binding(d.display_slots, slot)
            &&& forall|n: Seq<char>|
                #[trigger] w.is_tracked(n) <==> exists|slot: DisplaySlot|
                    #[trigger] last_binding(d.display_slots, slot) == Some(n)
        }),
{
    let v0 = load_objectives(empty_scoreboard(), d.objectives);
    lemma_load_objectives(d.objectives);
    let v1 = load_scores(v0, d.scores);
    lemma_load_scores(v0, d.scores);
    let v2 = load_teams(v1, d.teams);
    lemma_load_teams(v1, d.teams);
    let v3 = load_slots(v2, d.display_slots);
    lemma_load_slots(v2, d.display_slots);
    let w = loaded(d);
    assert(w.objectives == v0.objectives && w.scores == v1.scores && w.teams == v2.teams);
    assert(w.display_objectives == v3.display_objectives);
    assert forall|n: Seq<char>| #[trigger] w.has_objective(n) <==> exists|i: int|
        0 <= i < d.objectives.len() && #[trigger] d.objectives[i].name == n by {
        assert(w.has_objective(n) == v0.has_objective(n));
    }
    assert forall|n: Seq<char>| #[trigger] w.has_team(n) <==> exists|i: int|
        0 <= i < d.teams.len() && #[trigger] d.teams[i].name == n by {
        assert(w.has_team(n) == v2.has_team(n));
    }
    assert forall|o: Seq<char>, e: Seq<char>| #[trigger] w.has_score(o, e) <==> exists|i: int|
        0 <= i < d.scores.len() && #[trigger] d.scores[i].objective_name == o && d.scores[i].entity_name == e by {
        assert(w.has_score(o, e) == v1.has_score(o, e));
    }
    assert forall|slot: DisplaySlot| #[trigger] w.display_objective(slot) == last_binding(d.display_slots, slot) by {
        assert(w.display_objective(slot) == v3.display_objective(slot));
    }
    let dd = v3.display_objectives;
    assert forall|n: Seq<char>| #[trigger] w.is_tracked(n) <==> exists|slot: DisplaySlot|
        #[trigger] last_binding(d.display_slots, slot) == Some(n) by {
        lemma_tracked_from(Seq::empty(), dd, n);
        if exists|i: int| 0 <= i < dd.len() && #[trigger] dd[i].1 == Some(n) {
            let i = choose|i: int| 0 <= i < dd.len() && #[trigger] dd[i].1 == Some(n);
            let slot = dd[i].0;
            assert(is_first_where_slot(dd, slot, i)) by {
                assert forall|j: int| 0 <= j < i implies !slot_is(slot)(dd[j]) by {}
            }
            crate::text::lemma_first_where(dd, slot_is(slot), i);
            assert(v3.display_objective(slot) == Some(n));
            assert(last_binding(d.display_slots, slot) == Some(n));
        }
        if exists|slot: DisplaySlot| #[trigger] last_binding(d.display_slots, slot) == Some(n) {
            let slot = choose|slot: DisplaySlot| #[trigger] last_binding(d.display_slots, slot) == Some(n);
            assert(v3.display_objective(slot) == Some(n));
            lemma_first_where_some(dd, slot_is(slot));
            let i = v3.slot_index(slot)->0;
            assert(dd[i].1 == Some(n));
        }
    }
}

spec fn is_first_where_slot(d: Seq<(DisplaySlot, Option<Seq<char>>)>, slot: DisplaySlot, i: int) -> bool {
    crate::text::is_first_where(d, slot_is(slot), i)
}

/// The saved bindings each name a slot, and no two the same one.
pub open spec fn bindings_valid(slots: Seq<(Seq<char>, Seq<char>)>) -> bool {
    &&& forall|i: int| 0 <= i < slots.len() ==> (#[trigger] slot_from_name(slots[i].0)) is Some
    &&& forall|i: int, j: int|
        0 <= i < j < slots.len() ==> slot_from_name(slots[i].0) != slot_from_name(slots[j].0)
}

pub open spec fn binding_entry(e: (Seq<char>, Seq<char>)) -> (DisplaySlot, Option<Seq<char>>) {
    (slot_from_name(e.0)->0, Some(e.1))
}

#[verifier::spinoff_prover]
#[verifier::rlimit(40)]
proof fn lemma_load_slots_seq(v: ScoreboardView, slots: Seq<(Seq<char>, Seq<char>)>)
    requires
        v.display_objectives.len() == 0,
        bindings_valid(slots),
    ensures
        load_slots(v, slots).display_objectives == slots.map_values(|e: (Seq<char>, Seq<char>)| binding_entry(e)),
    decreases slots.len(),
{
    if slots.len() > 0 {
        let rest = slots.drop_last();
        assert(bindings_valid(rest)) by {
            assert forall|i: int| 0 <= i < rest.len() implies (#[trigger] slot_from_name(rest[i].0)) is Some by {
                assert(rest[i] == slots[i]);
            }
            assert forall|i: int, j: int| 0 <= i < j < rest.len() implies slot_from_name(rest[i].0)
                != slot_from_name(rest[j].0) by {
                assert(rest[i] == slots[i] && rest[j] == slots[j]);
            }
        }
        lemma_load_slots_seq(v, rest);
        let w = load_slots(v, rest);
        let e = slots.last();
        assert(slot_from_name(slots[slots.len() - 1].0) is Some);
        let s = slot_from_name(e.0)->0;
        assert forall|k: int| 0 <= k < w.display_objectives.len() implies !slot_is(s)(
            #[trigger] w.display_objectives[k],
        ) by {
            assert(w.display_objectives[k] == binding_entry(rest[k]));
            assert(slot_from_name(slots[k].0) is Some);
            assert(slot_from_name(slots[k].0) != slot_from_name(slots[slots.len() - 1].0));
        }
        crate::text::lemma_first_where_none(w.display_objectives, slot_is(s));
        assert(load_slots(v, slots).display_objectives =~= slots.map_values(
            |e: (Seq<char>, Seq<char>)| binding_entry(e),
        ));
    }
}

proof fn lemma_saved_bindings(slots: Seq<(Seq<char>, Seq<char>)>)
    requires
        forall|i: int| 0 <= i < slots.len() ==> (#[trigger] slot_from_name(slots[i].0)) is Some,
    ensures
        saved_slots(slots.map_values(|e: (Seq<char>, Seq<char>)| binding_entry(e))) == slots,
    decreases slots.len(),
{
    if slots.len() > 0 {
        let rest = slots.drop_last();
        assert forall|i: int| 0 <= i < rest.len() implies (#[trigger] slot_from_name(rest[i].0)) is Some by {
            assert(rest[i] == slots[i]);
        }
        lemma_saved_bindings(rest);
        let m = slots.map_values(|e: (Seq<char>, Seq<char>)| binding_entry(e));
        assert(m.drop_last() =~= rest.map_values(|e: (Seq<char>, Seq<char>)| binding_entry(e)));
        let e = slots.last();
        assert(slot_from_name(slots[slots.len() - 1].0) is Some);
        lemma_display_slot_name_round_trip(slot_from_name(e.0)->0, e.0);
        assert(saved_slots(m) =~= slots);
    }
}

/// Saved data that is well formed: names and keys unique, render types,
/// team rules and slot names ones the game writes.
pub open spec fn data_well_formed(d: ScoreboardDataView) -> bool {
    &&& d.keys_unique()
    &&& forall|i: int|
        0 <= i < d.objectives.len() ==> (#[trigger] d.objectives[i]).render_type == render_type_name(
            RenderType::Integer,
        ) || d.objectives[i].render_type == render_type_name(RenderType::Hearts)
    &&& forall|i: int|
        0 <= i < d.teams.len() ==> {
            let t = #[trigger] d.teams[i];
            &&& exists|v: NameTagVisibility| visibility_name(v) == t.nametag_visibility
            &&& exists|v: NameTagVisibility| visibility_name(v) == t.death_message_visibility
            &&& exists|r: CollisionRule| collision_rule_name(r) == t.collision_rule
        }
    &&& forall|i: int| 0 <= i < d.display_slots.len() ==> (#[trigger] slot_from_name(d.display_slots[i].0)) is Some
}

proof fn lemma_flags_round_trip(a: bool, b: bool)
    ensures
        (options_from_flags(a, b) & 1 != 0) == a,
        (options_from_flags(a, b) & 2 != 0) == b,
{
    assert((3i8 & 1) != 0 && (3i8 & 2) != 0) by (bit_vector);
    assert((1i8 & 1) != 0 && (1i8 & 2) == 0) by (bit_vector);
    assert((2i8 & 1) == 0 && (2i8 & 2) != 0) by (bit_vector);
    assert((0i8 & 1) == 0 && (0i8 & 2) == 0) by (bit_vector);
}

/// Loading well-formed saved data and saving it again gives the same data:
/// the same objectives, scores and teams in the same order, and the same
/// slot bindings.
#[verifier::spinoff_prover]
#[verifier::rlimit(40)]
pub proof fn lemma_load_then_save(d: ScoreboardDataView)
    requires
        data_well_formed(d),
    ensures
        saved(loaded(d)) == d,
{
    assert(unique_objective_names(d.objectives) && score_keys_unique(d.scores) && team_names_unique(d.teams));
    assert(bindings_valid(d.display_slots)) by {
        assert forall|i: int, j: int| 0 <= i < j < d.display_slots.len() implies slot_from_name(d.display_slots[i].0)
            != slot_from_name(d.display_slots[j].0) by {
            assert(slot_from_name(d.display_slots[i].0) is Some);
            assert(slot_from_name(d.display_slots[j].0) is Some);
            lemma_display_slot_name_round_trip(slot_from_name(d.display_slots[i].0)->0, d.display_slots[i].0);
            lemma_display_slot_name_round_trip(slot_from_name(d.display_slots[j].0)->0, d.display_slots[j].0);
        }
    }
    let v0 = load_objectives(empty_scoreboard(), d.objectives);
    lemma_load_objectives(d.objectives);
    let v1 = load_scores(v0, d.scores);
    lemma_load_scores(v0, d.scores);
    let v2 = load_teams(v1, d.teams);
    lemma_load_teams(v1, d.teams);
    lemma_load_slots(v2, d.display_slots);
    lemma_load_slots_seq(v2, d.display_slots);
    lemma_saved_bindings(d.display_slots);
    let w = loaded(d);
    let r = saved(w);
    reveal_strlit("integer");
    reveal_strlit("hearts");
    assert(r.objectives =~= d.objectives) by {
        assert forall|i: int| 0 <= i < d.objectives.len() implies r.objectives[i] == d.objectives[i] by {
            let o = d.objectives[i];
            assert(w.objectives[i] == objective_from_data(o));
        }
    }
    assert(r.scores =~= d.scores) by {
        assert forall|i: int| 0 <= i < d.scores.len() implies r.scores[i] == d.scores[i] by {
            assert(w.scores[i] == score_from_data(d.scores[i]));
        }
    }
    assert(r.teams =~= d.teams) by {
        assert forall|i: int| 0 <= i < d.teams.len() implies r.teams[i] == d.teams[i] by {
            let t = d.teams[i];
            assert(w.teams[i] == team_from_data(t));
            let nv = choose|v: NameTagVisibility| visibility_name(v) == t.nametag_visibility;
            let dv = choose|v: NameTagVisibility| visibility_name(v) == t.death_message_visibility;
            let cr = choose|r: CollisionRule| collision_rule_name(r) == t.collision_rule;
            lemma_team_rule_names_round_trip(nv, cr);
            lemma_team_rule_names_round_trip(dv, cr);
            lemma_flags_round_trip(t.allow_friendly_fire, t.see_friendly_invisibles);
        }
    }
}

/// The packets that bring a joining player up to date come in this order:
/// one team-create packet per team, in order, with its players; then, for
/// each objective clients know that exists, its create packet followed by
/// its scores; then one slot packet per slot binding, in order.
pub proof fn lemma_state_packets_order(v: ScoreboardView)
    ensures
        ({
            let ps = state_packets(v);
            let nt = v.teams.len() as int;
            let objs = tracked_objective_packets(v, v.tracked_names);
            let ns = v.display_objectives.len() as int;
            &&& ps.len() == nt + objs.len() + ns
            &&& forall|k: int| 0 <= k < nt ==> #[trigger] ps[k] == team_create_packet(v.teams[k])
            &&& forall|k: int| 0 <= k < objs.len() ==> #[trigger] ps[nt + k] == objs[k]
            &&& forall|k: int| 0 <= k < ns ==> #[trigger] ps[nt + objs.len() + k] == slot_packet(v.display_objectives[k])
        }),
{
}

/// The objective that the saved binding with slot name `key` names, if
/// there is one.
pub open spec fn binding_for(slots: Seq<(Seq<char>, Seq<char>)>, key: Seq<char>) -> Option<Seq<char>> {
    if exists|i: int| 0 <= i < slots.len() && #[trigger] slots[i].0 == key {
        Some(slots[choose|i: int| 0 <= i < slots.len() && #[trigger] slots[i].0 == key].1)
    } else {
        None
    }
}

pub open spec fn slot_keys_unique(slots: Seq<(Seq<char>, Seq<char>)>) -> bool {
    forall|i: int, j: int| 0 <= i < j < slots.len() ==> slots[i].0 != slots[j].0
}

proof fn lemma_last_binding_keyed(slots: Seq<(Seq<char>, Seq<char>)>, slot: DisplaySlot)
    requires
        slot_keys_unique(slots),
    ensures
        last_binding(slots, slot) == binding_for(slots, slot_name(slot)),
    decreases slots.len(),
{
    let key = slot_name(slot);
    lemma_display_slot_name_round_trip(slot, key);
    if slots.len() > 0 {
        let rest = slots.drop_last();
        let n = slots.len() - 1;
        assert(slots[n] == slots.last());
        lemma_display_slot_name_round_trip(slot, slots.last().0);
        if slot_from_name(slots.last().0) == Some(slot) {
            assert(slots[n].0 == key);
            let i = choose|i: int| 0 <= i < slots.len() && #[trigger] slots[i].0 == key;
            if i != n {
                assert(slots[i].0 != slots[n].0);
            }
        } else {
            assert(slot_keys_unique(rest)) by {
                assert forall|i: int, j: int| 0 <= i < j < rest.len() implies rest[i].0 != rest[j].0 by {
                    assert(rest[i] == slots[i] && rest[j] == slots[j]);
                }
            }
            lemma_last_binding_keyed(rest, slot);
            assert(slots[n].0 != key);
            if exists|i: int| 0 <= i < slots.len() && #[trigger] slots[i].0 == key {
                let i = choose|i: int| 0 <= i < slots.len() && #[trigger] slots[i].0 == key;
                assert(rest[i] == slots[i]);
                let i2 = choose|i: int| 0 <= i < rest.len() && #[trigger] rest[i].0 == key;
                assert(rest[i2] == slots[i2]);
                if i != i2 {
                    if i < i2 {
                        assert(slots[i].0 != slots[i2].0);
                    } else {
                        assert(slots[i2].0 != slots[i].0);
                    }
                }
            } else {
                assert forall|i: int| 0 <= i < rest.len() implies rest[i].0 != key by {
                    assert(rest[i] == slots[i]);
                }
            }
        }
    }
}

/// Loading saved data whose slot names are each given once, as the saved
/// file's map of slots holds them, whatever the scoreboard held before: the objectives,
/// teams and scores are exactly those the data names; each slot shows the
/// objective that the binding under its slot name names, or nothing when
/// there is none; and clients know exactly the objectives that a binding
/// with a known slot name names.
#[verifier::spinoff_prover]
#[verifier::rlimit(40)]
pub proof fn lemma_load_keyed_data(d: ScoreboardDataView)
    requires
        slot_keys_unique(d.display_slots),
    ensures
        ({
            let w = loaded(d);
            &&& forall|n: Seq<char>|
                #[trigger] w.has_objective(n) <==> exists|i: int|
                    0 <= i < d.objectives.len() && #[trigger] d.objectives[i].name == n
            &&& forall|n: Seq<char>|
                #[trigger] w.has_team(n) <==> exists|i: int| 0 <= i < d.teams.len() && #[trigger] d.teams[i].name == n
            &&& forall|o: Seq<char>, e: Seq<char>|
                #[trigger] w.has_score(o, e) <==> exists|i: int|
                    0 <= i < d.scores.len() && #[trigger] d.scores[i].objective_name == o && d.scores[i].entity_name
                        == e
            &&& forall|slot: DisplaySlot|
                #[trigger] w.display_objective(slot) == binding_for(d.display_slots, slot_name(slot))
            &&& forall|n: Seq<char>|
                #[trigger] w.is_tracked(n) <==> exists|i: int|
                    0 <= i < d.display_slots.len() && #[trigger] d.display_slots[i].1 == n && slot_from_name(
                        d.display_slots[i].0,
                    ) is Some
        }),
{
    let slots = d.display_slots;
    lemma_load_from_data_reads(d);
    let w = loaded(d);
    assert forall|slot: DisplaySlot| #[trigger] w.display_objective(slot) == binding_for(slots, slot_name(slot)) by {
        lemma_last_binding_keyed(slots, slot);
    }
    assert forall|n: Seq<char>| #[trigger] w.is_tracked(n) <==> exists|i: int|
        0 <= i < slots.len() && #[trigger] slots[i].1 == n && slot_from_name(slots[i].0) is Some by {
        if w.is_tracked(n) {
            let slot = choose|slot: DisplaySlot| #[trigger] last_binding(slots, slot) == Some(n);
            lemma_last_binding_keyed(slots, slot);
            let key = slot_name(slot);
            lemma_display_slot_name_round_trip(slot, key);
            let i = choose|i: int| 0 <= i < slots.len() && #[trigger] slots[i].0 == key;
            assert(slots[i].1 == n && slot_from_name(slots[i].0) is Some);
        }
        if exists|i: int| 0 <= i < slots.len() && #[trigger] slots[i].1 == n && slot_from_name(slots[i].0) is Some {
            let i = choose|i: int| 0 <= i < slots.len() && #[trigger] slots[i].1 == n && slot_from_name(slots[i].0) is Some;
            let slot = slot_from_name(slots[i].0)->0;
            lemma_display_slot_name_round_trip(slot, slots[i].0);
            lemma_last_binding_keyed(slots, slot);
            let key = slot_name(slot);
            let i2 = choose|i: int| 0 <= i < slots.len() && #[trigger] slots[i].0 == key;
            if i != i2 {
                if i < i2 {
                    assert(slots[i].0 != slots[i2].0);
                } else {
                    assert(slots[i2].0 != slots[i].0);
                }
            }
            assert(last_binding(slots, slot) == Some(n));
        }
    }
}

} // verus!
