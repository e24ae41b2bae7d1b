//! What the scoreboard interface for plugins computes: teams from the
//! settings a plugin gives, and objectives looked up by criterion.
use vstd::prelude::*;

use crate::criteria::NamedColor;
use crate::scoreboard::{ObjectiveView, Scoreboard, ScoreboardObjective};
use crate::team::{CollisionRule, NameTagVisibility, Team, TeamView};
use crate::text::{lemma_filter_take_step, str_eq};
use crate::text_component::TextComponent;

verus! {

/// The settings of a team as a plugin gives them.
pub struct TeamSettings {
    pub display_name: TextComponent,
    pub prefix: TextComponent,
    pub suffix: TextComponent,
    pub friendly_fire: bool,
    pub see_friendly_invisibles: bool,
    pub nametag_visibility: NameTagVisibility,
    pub collision_rule: CollisionRule,
    pub color: NamedColor,
}

/// The option bits of a team: friendly fire, then seeing invisible team
/// mates.
pub open spec fn settings_options(friendly_fire: bool, see_friendly_invisibles: bool) -> i8 {
    ((if friendly_fire {
        1int
    } else {
        0
    }) + (if see_friendly_invisibles {
        2int
    } else {
        0
    })) as i8
}

/// The team named `name` with the plugin's settings: no players yet, and
/// death messages always shown.
pub fn map_team_settings(name: String, settings: TeamSettings) -> (r: Team)
    ensures
        r@ == (TeamView {
            name: name@,
            display_name: settings.display_name@,
            options: settings_options(settings.friendly_fire, settings.see_friendly_invisibles),
            nametag_visibility: settings.nametag_visibility,
            death_message_visibility: NameTagVisibility::Always,
            collision_rule: settings.collision_rule,
            color: settings.color,
            player_prefix: settings.prefix@,
            player_suffix: settings.suffix@,
            players: Seq::empty(),
        }),
{
    let mut options: i8 = 0;
    if settings.friendly_fire {
        options = options + 1;
    }
    if settings.see_friendly_invisibles {
        options = options + 2;
    }
    let players: Vec<String> = Vec::new();
    let r = Team {
        name,
        display_name: settings.display_name,
        options,
        nametag_visibility: settings.nametag_visibility,
        death_message_visibility: NameTagVisibility::Always,
        collision_rule: settings.collision_rule,
        color: settings.color,
        player_prefix: settings.prefix,
        player_suffix: settings.suffix,
        players,
    };
    assert(r@.players =~= Seq::<Seq<char>>::empty());
    r
}

pub open spec fn uses_criterion(criterion: Seq<char>) -> spec_fn(ObjectiveView) -> bool {
    |o: ObjectiveView| o.criterion == criterion
}

/// The objectives whose criterion is `criterion`, in order.
pub fn objectives_by_criteria(scoreboard: &Scoreboard, criterion: &str) -> (r: Vec<ScoreboardObjective>)
    ensures
        r@.map_values(|o: ScoreboardObjective| o@) == scoreboard@.objectives.filter(uses_criterion(criterion@)),
{
    let objectives = scoreboard.get_objectives();
    let ghost all = scoreboard@.objectives;
    let mut found: Vec<ScoreboardObjective> = Vec::new();
    let mut i: usize = 0;
    while i < objectives.len()
        invariant
            i <= objectives@.len(),
            all == objectives@.map_values(|o: ScoreboardObjective| o@),
            found@.map_values(|o: ScoreboardObjective| o@) == all.take(i as int).filter(uses_criterion(criterion@)),
        decreases objectives@.len() - i,
    {
        proof {
            lemma_filter_take_step(all, uses_criterion(criterion@), i as int);
        }
        if str_eq(objectives[i].criterion.as_str(), criterion) {
            let ghost before = found@.map_values(|o: ScoreboardObjective| o@);
            let c = objectives[i].copy();
            found.push(c);
            assert(found@.map_values(|o: ScoreboardObjective| o@) =~= before.push(all[i as int]));
        }
        i = i + 1;
    }
    assert(all.take(all.len() as int) =~= all);
    found
}

} // verus!
