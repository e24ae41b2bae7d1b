//! Advancements of data packs: what a definition must hold, and where each
//! advancement is placed in the advancement screen.
use vstd::prelude::*;

use crate::identifier::{id_text, parse_identifier, Identifier, IdentifierView};
use crate::order::{chars_lt, insert_sorted, lemma_chars_lt_irreflexive, lemma_chars_lt_total, lemma_chars_lt_transitive, sorted_strictly, str_before};
use crate::team::names_view;
use crate::text::{first_where, lemma_first_where, lemma_first_where_none, lemma_first_where_some, string_eq};
use crate::json::{as_str, field_of, get_str, Json};
use crate::text_component::TextComponent;

verus! {

/// The plain text of a title or description written as JSON: a string, or
/// the `text` string of an object; anything else shows nothing.
pub open spec fn display_text_of(j: Json) -> Seq<char> {
    match j {
        Json::Str(s) => s@,
        Json::Object(fields) => match as_str(field_of(fields@, "text"@)) {
            Some(t) => t,
            None => Seq::empty(),
        },
        _ => Seq::empty(),
    }
}

/// Reads a title or description of an advancement; see [`display_text_of`].
pub fn display_text(j: &Json) -> (r: TextComponent)
    ensures
        r@ == display_text_of(*j),
{
    match j {
        Json::Str(s) => TextComponent::text(s.clone()),
        Json::Object(fields) => match get_str(fields, "text") {
            Some(t) => TextComponent::text(t.clone()),
            None => TextComponent::empty(),
        },
        _ => TextComponent::empty(),
    }
}

/// The frame drawn around an advancement's icon.
#[derive(Clone, Copy, Debug, PartialEq, Eq, Structural)]
pub enum FrameType {
    Task,
    Challenge,
    Goal,
}

/// How an advancement is shown, with its icon of type `I`.
#[derive(Debug, PartialEq, Eq)]
pub struct AdvancementDisplay<I> {
    pub title: TextComponent,
    pub description: TextComponent,
    pub icon: I,
    pub frame: FrameType,
    pub background: Option<String>,
    pub show_toast: bool,
    pub hidden: bool,
}

/// An advancement definition as read from a data pack file, its criteria
/// by name.
#[derive(Debug, PartialEq, Eq)]
pub struct RawAdvancement<I> {
    pub parent: Option<String>,
    pub display: Option<AdvancementDisplay<I>>,
    pub criteria: Vec<String>,
    pub requirements: Option<Vec<Vec<String>>>,
    pub send_telemetry: bool,
}

/// A checked advancement.
#[derive(Debug, PartialEq, Eq)]
pub struct Advancement<I> {
    pub id: Identifier,
    pub parent: Option<Identifier>,
    pub display: Option<AdvancementDisplay<I>>,
    pub requirements: Vec<Vec<String>>,
    pub send_telemetry: bool,
}

/// Why an advancement definition was rejected.
#[derive(Debug, PartialEq, Eq)]
pub enum AdvancementError {
    /// It defines no criterion.
    NoCriteria,
    /// Its parent is not a valid identifier.
    InvalidParent(String),
    /// A requirement group is empty.
    EmptyRequirementGroup,
    /// A requirement names a criterion that is not defined.
    UnknownCriterion(String),
}

pub open spec fn groups_view(groups: Seq<Vec<String>>) -> Seq<Seq<Seq<char>>> {
    groups.map_values(|g: Vec<String>| names_view(g@))
}

/// The first name of each group.
pub open spec fn first_names(groups: Seq<Seq<Seq<char>>>) -> Seq<Seq<char>> {
    groups.map_values(|g: Seq<Seq<char>>| g[0])
}

/// The requirements of an advancement: those it gives, or else each
/// criterion on its own, in sorted order.
pub open spec fn requirements_of(given: Option<Seq<Seq<Seq<char>>>>, sorted_criteria: Seq<Seq<char>>) -> Seq<
    Seq<Seq<char>>,
> {
    match given {
        Some(groups) => groups,
        None => sorted_criteria.map_values(|c: Seq<char>| seq![c]),
    }
}

/// The first problem of a list of requirement groups, in order: an empty
/// group, or a criterion that is not defined.
pub open spec fn requirements_problem(groups: Seq<Seq<Seq<char>>>, criteria: Seq<Seq<char>>) -> Option<Option<Seq<char>>>
    decreases groups.len(),
{
    if groups.len() == 0 {
        None
    } else {
        let g = groups[0];
        if g.len() == 0 {
            Some(None)
        } else {
            match first_where(g, |c: Seq<char>| !criteria.contains(c)) {
                Some(i) => Some(Some(g[i])),
                None => requirements_problem(groups.drop_first(), criteria),
            }
        }
    }
}

fn sorted_names(names: &Vec<String>) -> (r: Vec<String>)
    ensures
        sorted_strictly(names_view(r@)),
        forall|n: Seq<char>| #[trigger] names_view(r@).contains(n) <==> names_view(names@).contains(n),
{
    let mut r: Vec<String> = Vec::new();
    let mut i: usize = 0;
    proof {
        assert(names_view(r@) =~= Seq::<Seq<char>>::empty());
    }
    while i < names.len()
        invariant
            i <= names@.len(),
            sorted_strictly(names_view(r@)),
            forall|n: Seq<char>| #[trigger] names_view(r@).contains(n) <==> names_view(names@).take(i as int).contains(n),
        decreases names@.len() - i,
    {
        let ghost before = names_view(r@);
        insert_sorted(&mut r, names[i].clone());
        proof {
            let t = names_view(names@).take(i + 1);
            assert(t =~= names_view(names@).take(i as int).push(names@[i as int]@));
            assert forall|n: Seq<char>| #[trigger] names_view(r@).contains(n) <==> t.contains(n) by {
                if t.contains(n) {
                    let k = choose|k: int| 0 <= k < t.len() && t[k] == n;
                    if k < i {
                        assert(names_view(names@).take(i as int)[k] == n);
                    }
                }
                if names_view(names@).take(i as int).contains(n) {
                    let k = choose|k: int| 0 <= k < i && names_view(names@).take(i as int)[k] == n;
                    assert(t[k] == n);
                }
                if n == names@[i as int]@ {
                    assert(t[i as int] == n);
                }
            }
        }
        i = i + 1;
    }
    proof {
        assert(names_view(names@).take(names@.len() as int) =~= names_view(names@));
    }
    r
}

pub(crate) fn contains_name(names: &Vec<String>, name: &String) -> (r: bool)
    ensures
        r == names_view(names@).contains(name@),
{
    let mut i: usize = 0;
    while i < names.len()
        invariant
            i <= names@.len(),
            forall|j: int| 0 <= j < i ==> names_view(names@)[j] != name@,
        decreases names@.len() - i,
    {
        if string_eq(&names[i], name) {
            assert(names_view(names@)[i as int] == name@);
            return true;
        }
        i = i + 1;
    }
    false
}

/// Checks an advancement definition: it must define a criterion, its parent
/// must be a valid identifier, and every requirement group must be non-empty
/// and name defined criteria. Without requirements, each criterion is
/// required on its own, in sorted order. The display is kept as given.
pub fn parse_advancement<I>(id: &Identifier, raw: RawAdvancement<I>) -> (r: Result<Advancement<I>, AdvancementError>)
    ensures
        ({
            let criteria = names_view(raw.criteria@);
            let given = match raw.requirements {
                Some(g) => Some(groups_view(g@)),
                None => None,
            };
            if criteria.len() == 0 {
                r == Err::<Advancement<I>, AdvancementError>(AdvancementError::NoCriteria)
            } else if raw.parent matches Some(p) && parse_identifier(p@) is None {
                r matches Err(AdvancementError::InvalidParent(p2)) && p2@ == raw.parent->0@
            } else {
                &&& given is None ==> (r matches Ok(a) && (forall|k: int|
                    0 <= k < a.requirements@.len() ==> (#[trigger] a.requirements@[k])@.len() == 1)
                    && sorted_strictly(first_names(groups_view(a.requirements@)))
                    && (forall|n: Seq<char>| #[trigger] first_names(groups_view(a.requirements@)).contains(n) <==> criteria.contains(n)))
                &&& given matches Some(groups) ==> match requirements_problem(groups, criteria) {
                    None => r matches Ok(a) && groups_view(a.requirements@) == groups,
                    Some(None) => r == Err::<Advancement<I>, AdvancementError>(AdvancementError::EmptyRequirementGroup),
                    Some(Some(c)) => r matches Err(AdvancementError::UnknownCriterion(c2)) && c2@ == c,
                }
                &&& r matches Ok(a) ==> a.id@ == id@ && a.send_telemetry == raw.send_telemetry && a.display == raw.display
                    && (match raw.parent {
                        Some(p) => a.parent matches Some(q) && parse_identifier(p@) == Some(q@),
                        None => a.parent is None,
                    })
            }
        }),
{
    if raw.criteria.len() == 0 {
        return Err(AdvancementError::NoCriteria);
    }
    let parent = match &raw.parent {
        Some(p) => match Identifier::parse(p.as_str()) {
            Some(q) => Some(q),
            None => {
                return Err(AdvancementError::InvalidParent(p.clone()));
            },
        },
        None => None,
    };
    let ghost criteria = names_view(raw.criteria@);
    let RawAdvancement { parent: _, display, criteria: criteria_names, requirements, send_telemetry } = raw;
    let requirements: Vec<Vec<String>> = match requirements {
        Some(groups) => {
            let ghost gv = groups_view(groups@);
            let mut k: usize = 0;
            proof {
                assert(gv.skip(0) =~= gv);
            }
            while k < groups.len()
                invariant
                    k <= groups@.len(),
                    gv == groups_view(groups@),
                    criteria == names_view(criteria_names@),
                    criteria == names_view(raw.criteria@),
                    raw.requirements == Some(groups),
                    criteria.len() > 0,
                    !(raw.parent matches Some(p) && parse_identifier(p@) is None),
                    requirements_problem(gv, criteria) == requirements_problem(gv.skip(k as int), criteria),
                decreases groups@.len() - k,
            {
                let group = &groups[k];
                proof {
                    assert(gv.skip(k as int)[0] == names_view(group@));
                    assert(gv.skip(k as int).drop_first() =~= gv.skip(k + 1));
                }
                if group.len() == 0 {
                    return Err(AdvancementError::EmptyRequirementGroup);
                }
                let mut j: usize = 0;
                while j < group.len()
                    invariant
                        j <= group@.len(),
                        criteria == names_view(criteria_names@),
                        criteria == names_view(raw.criteria@),
                        raw.requirements == Some(groups),
                        criteria.len() > 0,
                        !(raw.parent matches Some(p) && parse_identifier(p@) is None),
                        gv == groups_view(groups@),
                        k < groups@.len(),
                        group == groups@[k as int],
                        requirements_problem(gv, criteria) == requirements_problem(gv.skip(k as int), criteria),
                        forall|m: int| 0 <= m < j ==> criteria.contains(#[trigger] names_view(group@)[m]),
                    decreases group@.len() - j,
                {
                    if !contains_name(&criteria_names, &group[j]) {
                        proof {
                            let g = names_view(group@);
                            assert forall|m: int| 0 <= m < j implies !(|c: Seq<char>| !criteria.contains(c))(#[trigger] g[m]) by {}
                            lemma_first_where(g, |c: Seq<char>| !criteria.contains(c), j as int);
                        }
                        return Err(AdvancementError::UnknownCriterion(group[j].clone()));
                    }
                    j = j + 1;
                }
                proof {
                    let g = names_view(group@);
                    assert forall|m: int| 0 <= m < g.len() implies !(|c: Seq<char>| !criteria.contains(c))(#[trigger] g[m]) by {}
                    lemma_first_where_none(g, |c: Seq<char>| !criteria.contains(c));
                }
                k = k + 1;
            }
            groups
        },
        None => {
            let sorted = sorted_names(&criteria_names);
            let mut groups: Vec<Vec<String>> = Vec::new();
            let mut k: usize = 0;
            while k < sorted.len()
                invariant
                    k <= sorted@.len(),
                    groups@.len() == k,
                    forall|m: int| 0 <= m < k ==> (#[trigger] groups@[m])@.len() == 1 && groups@[m]@[0]@ == sorted@[m]@,
                decreases sorted@.len() - k,
            {
                let mut group: Vec<String> = Vec::new();
                group.push(sorted[k].clone());
                groups.push(group);
                k = k + 1;
            }
            proof {
                let firsts = first_names(groups_view(groups@));
                assert(firsts =~= names_view(sorted@));
            }
            groups
        },
    };
    Ok(Advancement { id: id.copy(), parent, display, requirements, send_telemetry })
}

// ---------------------------------------------------------------------------
// Layout

pub struct NodeView {
    pub id: IdentifierView,
    pub parent: Option<IdentifierView>,
    pub shown: bool,
}

pub open spec fn nodes_view<I>(advancements: Seq<Advancement<I>>) -> Seq<NodeView> {
    advancements.map_values(|a: Advancement<I>| NodeView {
        id: a.id@,
        parent: match a.parent {
            Some(p) => Some(p@),
            None => None,
        },
        shown: a.display is Some,
    })
}

pub open spec fn node_is(id: IdentifierView) -> spec_fn(NodeView) -> bool {
    |n: NodeView| n.id == id
}

/// The parent of `id` when it is an advancement of `nodes` too.
#[verifier::opaque]
pub open spec fn known_parent(nodes: Seq<NodeView>, id: IdentifierView) -> Option<IdentifierView> {
    match first_where(nodes, node_is(id)) {
        Some(i) => match nodes[i].parent {
            Some(p) => if first_where(nodes, node_is(p)) is Some {
                Some(p)
            } else {
                None
            },
            None => None,
        },
        None => None,
    }
}

/// Where following known parents from `id`, at most `steps` times, ends.
#[verifier::opaque]
pub open spec fn climb_root(nodes: Seq<NodeView>, id: IdentifierView, steps: nat) -> IdentifierView
    decreases steps,
{
    if steps == 0 {
        id
    } else {
        match known_parent(nodes, id) {
            Some(p) => climb_root(nodes, p, (steps - 1) as nat),
            None => id,
        }
    }
}

/// How many known parents are followed from `id`, at most `steps` of them.
#[verifier::opaque]
pub open spec fn climb_depth(nodes: Seq<NodeView>, id: IdentifierView, steps: nat) -> nat
    decreases steps,
{
    if steps == 0 {
        0
    } else {
        match known_parent(nodes, id) {
            Some(p) => climb_depth(nodes, p, (steps - 1) as nat) + 1,
            None => 0,
        }
    }
}

/// One step of the climb: with steps left, a known parent is followed and a
/// missing one ends the climb where it is.
pub proof fn lemma_climb_step(nodes: Seq<NodeView>, id: IdentifierView, steps: nat)
    ensures
        steps == 0 ==> climb_root(nodes, id, steps) == id && climb_depth(nodes, id, steps) == 0,
        steps > 0 ==> match known_parent(nodes, id) {
            Some(p) => climb_root(nodes, id, steps) == climb_root(nodes, p, (steps - 1) as nat)
                && climb_depth(nodes, id, steps) == climb_depth(nodes, p, (steps - 1) as nat) + 1,
            None => climb_root(nodes, id, steps) == id && climb_depth(nodes, id, steps) == 0,
        },
{
    reveal_with_fuel(climb_root, 2);
    reveal_with_fuel(climb_depth, 2);
}

fn find_node<I>(advancements: &Vec<Advancement<I>>, id: &Identifier) -> (r: Option<usize>)
    ensures
        match r {
            Some(i) => i < advancements@.len() && first_where(nodes_view(advancements@), node_is(id@)) == Some(i as int),
            None => first_where(nodes_view(advancements@), node_is(id@)) is None,
        },
{
    let ghost nv = nodes_view(advancements@);
    let mut i: usize = 0;
    while i < advancements.len()
        invariant
            i <= advancements@.len(),
            nv == nodes_view(advancements@),
            forall|j: int| 0 <= j < i ==> !node_is(id@)(#[trigger] nv[j]),
        decreases advancements@.len() - i,
    {
        let a = &advancements[i];
        if string_eq(&a.id.namespace, &id.namespace) && string_eq(&a.id.path, &id.path) {
            proof {
                lemma_first_where(nv, node_is(id@), i as int);
            }
            return Some(i);
        }
        i = i + 1;
    }
    proof {
        lemma_first_where_none(nv, node_is(id@));
    }
    None
}

fn parent_in<I>(advancements: &Vec<Advancement<I>>, id: &Identifier) -> (r: Option<Identifier>)
    ensures
        match r {
            Some(p) => known_parent(nodes_view(advancements@), id@) == Some(p@),
            None => known_parent(nodes_view(advancements@), id@) is None,
        },
{
    proof {
        reveal(known_parent);
    }
    match find_node(advancements, id) {
        Some(i) => match &advancements[i].parent {
            Some(p) => if find_node(advancements, p).is_some() {
                Some(p.copy())
            } else {
                None
            },
            None => None,
        },
        None => None,
    }
}

/// The root of `id`'s tree and how deep `id` lies in it: known parents are
/// followed at most as many times as there are advancements.
pub fn root_and_depth<I>(id: &Identifier, advancements: &Vec<Advancement<I>>) -> (r: (Identifier, usize))
    ensures
        r.0@ == climb_root(nodes_view(advancements@), id@, advancements@.len()),
        r.1 == climb_depth(nodes_view(advancements@), id@, advancements@.len()),
{
    let ghost nv = nodes_view(advancements@);
    let ghost n = advancements@.len();
    let mut current = id.copy();
    let mut depth: usize = 0;
    let mut remaining = advancements.len();
    loop
        invariant_except_break
            nv == nodes_view(advancements@),
            n == advancements@.len(),
            n <= usize::MAX,
            remaining <= n,
            depth + remaining == n,
            climb_root(nv, id@, n) == climb_root(nv, current@, remaining as nat),
            climb_depth(nv, id@, n) == climb_depth(nv, current@, remaining as nat) + depth,
        ensures
            climb_root(nv, id@, n) == current@,
            climb_depth(nv, id@, n) == depth,
        decreases remaining,
    {
        proof {
            lemma_climb_step(nv, current@, remaining as nat);
        }
        if remaining == 0 {
            break;
        }
        let parent = parent_in(advancements, &current);
        match parent {
            Some(p) => {
                current = p;
                depth = depth + 1;
                remaining = remaining - 1;
            },
            None => {
                break;
            },
        }
    }
    (current, depth)
}

/// Where an advancement goes in the advancement screen: `index` is its
/// position among the advancements laid out, `column` how deep it lies in
/// its tree, and `row` its line within the tree, given to those with a
/// display only.
#[derive(Clone, Copy, Debug, PartialEq, Eq, Structural)]
pub struct Placement {
    pub index: usize,
    pub column: usize,
    pub row: Option<usize>,
}

/// What advancements are ordered by: the root of their tree as written,
/// their depth in it, and their own identifier as written.
pub struct LayoutKey {
    pub root: Seq<char>,
    pub depth: nat,
    pub id: Seq<char>,
}

pub open spec fn layout_key(nodes: Seq<NodeView>, i: int) -> LayoutKey {
    LayoutKey {
        root: id_text(climb_root(nodes, nodes[i].id, nodes.len())),
        depth: climb_depth(nodes, nodes[i].id, nodes.len()),
        id: id_text(nodes[i].id),
    }
}

/// `a` is ordered strictly before `b`.
pub open spec fn key_lt(a: LayoutKey, b: LayoutKey) -> bool {
    ||| chars_lt(a.root, b.root)
    ||| a.root == b.root && a.depth < b.depth
    ||| a.root == b.root && a.depth == b.depth && chars_lt(a.id, b.id)
}

pub proof fn lemma_key_lt_transitive(a: LayoutKey, b: LayoutKey, c: LayoutKey)
    requires
        key_lt(a, b),
        key_lt(b, c),
    ensures
        key_lt(a, c),
{
    if chars_lt(a.root, b.root) && chars_lt(b.root, c.root) {
        lemma_chars_lt_transitive(a.root, b.root, c.root);
    }
    if a.root == b.root && b.root == c.root && a.depth == b.depth && b.depth == c.depth && chars_lt(a.id, b.id)
        && chars_lt(b.id, c.id) {
        lemma_chars_lt_transitive(a.id, b.id, c.id);
    }
}

pub proof fn lemma_key_lt_irreflexive(a: LayoutKey)
    ensures
        !key_lt(a, a),
{
    lemma_chars_lt_irreflexive(a.root);
    lemma_chars_lt_irreflexive(a.id);
}

/// The root and whether it is shown, of each advancement in the order of
/// `order`.
pub open spec fn order_view(nodes: Seq<NodeView>, order: Seq<Placement>) -> Seq<(Seq<char>, bool)> {
    order.map_values(|p: Placement| (layout_key(nodes, p.index as int).root, nodes[p.index as int].shown))
}

/// How many of the first `k` entries of `order` are shown in the tree of
/// `root`.
pub open spec fn shown_in_tree(order: Seq<(Seq<char>, bool)>, root: Seq<char>, k: int) -> nat
    decreases k,
{
    if k <= 0 {
        0
    } else {
        shown_in_tree(order, root, k - 1) + if order[k - 1].0 == root && order[k - 1].1 {
            1nat
        } else {
            0nat
        }
    }
}

/// The layout of a list of advancements whose identifiers are given once
/// each: where each goes, in order.
pub open spec fn is_layout(nodes: Seq<NodeView>, order: Seq<Placement>) -> bool {
    &&& order.len() == nodes.len()
    &&& forall|k: int| 0 <= k < order.len() ==> (#[trigger] order[k]).index < nodes.len()
    &&& forall|k1: int, k2: int|
        0 <= k1 < k2 < order.len() ==> (#[trigger] order[k1]).index != (#[trigger] order[k2]).index
    &&& forall|k1: int, k2: int|
        0 <= k1 < k2 < order.len() ==> !key_lt(
            layout_key(nodes, (#[trigger] order[k2]).index as int),
            layout_key(nodes, (#[trigger] order[k1]).index as int),
        )
    &&& forall|k1: int, k2: int|
        0 <= k1 < k2 < order.len() && layout_key(nodes, (#[trigger] order[k1]).index as int)
            == layout_key(nodes, (#[trigger] order[k2]).index as int) ==> order[k1].index < order[k2].index
    &&& forall|k: int|
        0 <= k < order.len() ==> (#[trigger] order[k]).column == layout_key(nodes, order[k].index as int).depth
    &&& forall|k: int|
        0 <= k < order.len() ==> (#[trigger] order[k]).row == if nodes[order[k].index as int].shown {
            Some(
                shown_in_tree(order_view(nodes, order), layout_key(nodes, order[k].index as int).root, k) as usize,
            )
        } else {
            None
        }
}

struct Keyed {
    index: usize,
    root: String,
    depth: usize,
    id: String,
}

spec fn keyed_key(e: Keyed) -> LayoutKey {
    LayoutKey { root: e.root@, depth: e.depth as nat, id: e.id@ }
}

fn keyed_before(a: &Keyed, b: &Keyed) -> (r: bool)
    ensures
        r == key_lt(keyed_key(*a), keyed_key(*b)),
{
    if str_before(a.root.as_str(), b.root.as_str()) {
        true
    } else if !string_eq(&a.root, &b.root) {
        false
    } else if a.depth != b.depth {
        a.depth < b.depth
    } else {
        str_before(a.id.as_str(), b.id.as_str())
    }
}

/// Orders the advancements by the root of their tree, their depth in it
/// and their identifier, then gives each one with a display the next row of
/// its tree.
pub fn layout_and_sort<I>(advancements: &Vec<Advancement<I>>) -> (r: Vec<Placement>)
    ensures
        is_layout(nodes_view(advancements@), r@),
{
    let ghost nv = nodes_view(advancements@);
    let n = advancements.len();
    // Insertion in order, each advancement after those that it does not
    // come before.
    let mut sorted: Vec<Keyed> = Vec::new();
    let mut i: usize = 0;
    while i < n
        invariant
            nv == nodes_view(advancements@),
            n == advancements@.len(),
            i <= n,
            sorted@.len() == i,
            forall|k: int| 0 <= k < i ==> (#[trigger] sorted@[k]).index < i,
            forall|k: int| 0 <= k < i ==> keyed_key(#[trigger] sorted@[k]) == layout_key(nv, sorted@[k].index as int),
            forall|k1: int, k2: int|
                0 <= k1 < k2 < i ==> (#[trigger] sorted@[k1]).index != (#[trigger] sorted@[k2]).index,
            forall|k1: int, k2: int|
                0 <= k1 < k2 < i ==> !key_lt(keyed_key(#[trigger] sorted@[k2]), keyed_key(#[trigger] sorted@[k1])),
            forall|k1: int, k2: int|
                0 <= k1 < k2 < i && keyed_key(#[trigger] sorted@[k1]) == keyed_key(#[trigger] sorted@[k2])
                    ==> sorted@[k1].index < sorted@[k2].index,
        decreases n - i,
    {
        let (root, depth) = root_and_depth(&advancements[i].id, advancements);
        let entry = Keyed {
            index: i,
            root: root.to_string(),
            depth,
            id: advancements[i].id.to_string(),
        };
        assert(keyed_key(entry) == layout_key(nv, i as int));
        let mut p: usize = 0;
        while p < sorted.len() && !keyed_before(&entry, &sorted[p])
            invariant
                p <= sorted@.len(),
                forall|k: int| 0 <= k < p ==> !key_lt(keyed_key(entry), keyed_key(#[trigger] sorted@[k])),
            decreases sorted@.len() - p,
        {
            p = p + 1;
        }
        let ghost old_sorted = sorted@;
        let ghost ek = keyed_key(entry);
        let ghost ge = entry;
        sorted.insert(p, entry);
        assert(sorted@[p as int] == ge);
        proof {
            assert forall|k: int| 0 <= k < i + 1 implies (#[trigger] sorted@[k]).index < i + 1 && keyed_key(
                sorted@[k],
            ) == layout_key(nv, sorted@[k].index as int) by {
                if k > p {
                    assert(sorted@[k] == old_sorted[k - 1]);
                } else if k < p {
                    assert(sorted@[k] == old_sorted[k]);
                }
            }
            assert forall|k1: int, k2: int| 0 <= k1 < k2 < i + 1 implies (#[trigger] sorted@[k1]).index
                != (#[trigger] sorted@[k2]).index && !key_lt(keyed_key(sorted@[k2]), keyed_key(sorted@[k1]))
                && (keyed_key(sorted@[k1]) == keyed_key(sorted@[k2]) ==> sorted@[k1].index < sorted@[k2].index) by {
                if k2 < p {
                    assert(sorted@[k1] == old_sorted[k1]);
                    assert(sorted@[k2] == old_sorted[k2]);
                } else if k2 == p {
                    assert(sorted@[k1] == old_sorted[k1]);
                    assert(!key_lt(ek, keyed_key(old_sorted[k1])));
                    assert(old_sorted[k1].index < i);
                } else if k1 < p {
                    assert(sorted@[k1] == old_sorted[k1]);
                    assert(sorted@[k2] == old_sorted[k2 - 1]);
                } else if k1 == p {
                    assert(sorted@[k2] == old_sorted[k2 - 1]);
                    assert(key_lt(ek, keyed_key(old_sorted[p as int])));
                    lemma_key_lt_irreflexive(keyed_key(old_sorted[p as int]));
                    if key_lt(keyed_key(old_sorted[k2 - 1]), ek) {
                        lemma_key_lt_transitive(keyed_key(old_sorted[k2 - 1]), ek, keyed_key(old_sorted[p as int]));
                    }
                    if keyed_key(old_sorted[k2 - 1]) == ek {
                        assert(key_lt(keyed_key(old_sorted[k2 - 1]), keyed_key(old_sorted[p as int])));
                    }
                } else {
                    assert(sorted@[k1] == old_sorted[k1 - 1]);
                    assert(sorted@[k2] == old_sorted[k2 - 1]);
                }
            }
        }
        i = i + 1;
    }
    // Rows: the advancements with a display of each tree are numbered in
    // order.
    let mut placed: Vec<Placement> = Vec::new();
    let mut k: usize = 0;
    while k < n
        invariant
            nv == nodes_view(advancements@),
            n == advancements@.len(),
            sorted@.len() == n,
            k <= n,
            placed@.len() == k,
            forall|j: int| 0 <= j < n ==> (#[trigger] sorted@[j]).index < n,
            forall|j: int| 0 <= j < n ==> keyed_key(#[trigger] sorted@[j]) == layout_key(nv, sorted@[j].index as int),
            forall|k1: int, k2: int|
                0 <= k1 < k2 < n ==> (#[trigger] sorted@[k1]).index != (#[trigger] sorted@[k2]).index,
            forall|k1: int, k2: int|
                0 <= k1 < k2 < n ==> !key_lt(keyed_key(#[trigger] sorted@[k2]), keyed_key(#[trigger] sorted@[k1])),
            forall|k1: int, k2: int|
                0 <= k1 < k2 < n && keyed_key(#[trigger] sorted@[k1]) == keyed_key(#[trigger] sorted@[k2])
                    ==> sorted@[k1].index < sorted@[k2].index,
            forall|j: int| 0 <= j < k ==> (#[trigger] placed@[j]).index == sorted@[j].index,
            forall|j: int| 0 <= j < k ==> (#[trigger] placed@[j]).column == sorted@[j].depth,
            forall|j: int|
                0 <= j < k ==> (#[trigger] placed@[j]).row == if nv[sorted@[j].index as int].shown {
                    Some(shown_in_tree(order_view(nv, placed@), sorted@[j].root@, j) as usize)
                } else {
                    None
                },
        decreases n - k,
    {
        let e = &sorted[k];
        let row = if advancements[e.index].display.is_some() {
            let mut count: usize = 0;
            let mut j: usize = 0;
            while j < k
                invariant
                    nv == nodes_view(advancements@),
                    n == advancements@.len(),
                    sorted@.len() == n,
                    j <= k,
                    k < n,
                    count <= j,
                    placed@.len() == k,
                    forall|q: int| 0 <= q < n ==> (#[trigger] sorted@[q]).index < n,
                    forall|q: int|
                        0 <= q < n ==> keyed_key(#[trigger] sorted@[q]) == layout_key(nv, sorted@[q].index as int),
                    forall|q: int| 0 <= q < k ==> (#[trigger] placed@[q]).index == sorted@[q].index,
                    count == shown_in_tree(order_view(nv, placed@), e.root@, j as int),
                decreases k - j,
            {
                let q = placed[j].index;
                if advancements[q].display.is_some() && string_eq(&sorted[j].root, &e.root) {
                    count = count + 1;
                }
                j = j + 1;
            }
            Some(count)
        } else {
            None
        };
        let ghost before = placed@;
        placed.push(Placement { index: e.index, column: e.depth, row });
        proof {
            assert forall|j: int| 0 <= j < k + 1 implies (#[trigger] placed@[j]).row == if nv[sorted@[
                j
            ].index as int].shown {
                Some(shown_in_tree(order_view(nv, placed@), sorted@[j].root@, j) as usize)
            } else {
                None
            } by {
                lemma_shown_in_tree_prefix(order_view(nv, before), order_view(nv, placed@), sorted@[j].root@, j);
            }
        }
        k = k + 1;
    }
    proof {
        assert forall|q: int| 0 <= q < n implies (#[trigger] placed@[q]).row == if nv[placed@[q].index as int].shown {
            Some(shown_in_tree(order_view(nv, placed@), layout_key(nv, placed@[q].index as int).root, q) as usize)
        } else {
            None
        } by {
            assert(placed@[q].index == sorted@[q].index);
        }
    }
    placed
}

/// The count over the first `k` entries only reads those entries.
proof fn lemma_shown_in_tree_prefix(a: Seq<(Seq<char>, bool)>, b: Seq<(Seq<char>, bool)>, root: Seq<char>, k: int)
    requires
        0 <= k <= a.len(),
        k <= b.len(),
        forall|j: int| 0 <= j < k ==> a[j] == b[j],
    ensures
        shown_in_tree(a, root, k) == shown_in_tree(b, root, k),
    decreases k,
{
    if k > 0 {
        lemma_shown_in_tree_prefix(a, b, root, k - 1);
    }
}

} // verus!
