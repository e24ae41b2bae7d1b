//! The function scheduler behind `/schedule`: functions and function tags
//! that run when the game time reaches their trigger time.
//!
//! Events are kept ordered by trigger time, then by the order in which they
//! were scheduled; the game loop calls [`FunctionScheduler::tick`] once per
//! tick and runs the events it hands back.
use vstd::prelude::*;

use crate::identifier::{all_namespace_chars, all_path_chars, parse_identifier, Identifier, IdentifierView};
use crate::order::{insert_sorted, sorted_strictly};
use crate::team::names_view;
use crate::text::{first_where, lemma_first_where, lemma_first_where_none, lemma_first_where_some, owned, push_str, str_eq, string_eq};

verus! {

/// What a scheduled event runs.
#[derive(Clone, Copy, Debug, PartialEq, Eq, Structural)]
pub enum ScheduledFunctionKind {
    Function,
    Tag,
}

/// The callback type under which an event of this kind is saved.
pub open spec fn callback_name(kind: ScheduledFunctionKind) -> Seq<char> {
    match kind {
        ScheduledFunctionKind::Function => "minecraft:function"@,
        ScheduledFunctionKind::Tag => "minecraft:function_tag"@,
    }
}

/// The kind that a saved callback type stands for; the short forms
/// `function` and `function_tag` are read too.
pub open spec fn kind_from_callback(name: Seq<char>) -> Option<ScheduledFunctionKind> {
    if name == "minecraft:function"@ || name == "function"@ {
        Some(ScheduledFunctionKind::Function)
    } else if name == "minecraft:function_tag"@ || name == "function_tag"@ {
        Some(ScheduledFunctionKind::Tag)
    } else {
        None
    }
}

impl ScheduledFunctionKind {
    pub fn callback_type(self) -> (r: &'static str)
        ensures
            r@ == callback_name(self),
    {
        match self {
            ScheduledFunctionKind::Function => "minecraft:function",
            ScheduledFunctionKind::Tag => "minecraft:function_tag",
        }
    }
}

fn kind_of_callback(name: &str) -> (r: Option<ScheduledFunctionKind>)
    ensures
        r == kind_from_callback(name@),
{
    if str_eq(name, "minecraft:function") || str_eq(name, "function") {
        Some(ScheduledFunctionKind::Function)
    } else if str_eq(name, "minecraft:function_tag") || str_eq(name, "function_tag") {
        Some(ScheduledFunctionKind::Tag)
    } else {
        None
    }
}

/// The saved callback of an event.
#[derive(Debug, PartialEq, Eq)]
pub struct ScheduledEventCallbackData {
    pub callback_type: String,
    pub id: String,
}

/// A saved event.
#[derive(Debug, PartialEq, Eq)]
pub struct ScheduledEventData {
    pub trigger_time: i64,
    pub id: String,
    pub callback: ScheduledEventCallbackData,
}

/// The saved events of a world.
#[derive(Debug, PartialEq, Eq)]
pub struct ScheduledEventsData {
    pub data_version: i32,
    pub events: Vec<ScheduledEventData>,
}

pub struct EventDataView {
    pub trigger_time: i64,
    pub id: Seq<char>,
    pub callback_type: Seq<char>,
    pub callback_id: Seq<char>,
}

impl View for ScheduledEventData {
    type V = EventDataView;

    open spec fn view(&self) -> EventDataView {
        EventDataView {
            trigger_time: self.trigger_time,
            id: self.id@,
            callback_type: self.callback.callback_type@,
            callback_id: self.callback.id@,
        }
    }
}

impl ScheduledEventsData {
    /// No saved events.
    pub fn new(data_version: i32) -> (r: ScheduledEventsData)
        ensures
            r.data_version == data_version,
            r.events@.len() == 0,
    {
        ScheduledEventsData { data_version, events: Vec::new() }
    }
}

/// A scheduled event.
#[derive(Debug, PartialEq, Eq)]
pub struct ScheduledFunction {
    pub trigger_time: i64,
    pub sequence: u64,
    pub name: String,
    pub id: Identifier,
    pub kind: ScheduledFunctionKind,
}

pub struct EventView {
    pub trigger_time: i64,
    pub sequence: u64,
    pub name: Seq<char>,
    pub id: IdentifierView,
    pub kind: ScheduledFunctionKind,
}

impl View for ScheduledFunction {
    type V = EventView;

    open spec fn view(&self) -> EventView {
        EventView {
            trigger_time: self.trigger_time,
            sequence: self.sequence,
            name: self.name@,
            id: self.id@,
            kind: self.kind,
        }
    }
}

pub open spec fn events_view(events: Seq<ScheduledFunction>) -> Seq<EventView> {
    events.map_values(|e: ScheduledFunction| e@)
}

/// `a` runs strictly before `b`: an earlier trigger time, or the same time
/// and an earlier sequence number.
pub open spec fn key_lt(a: EventView, b: EventView) -> bool {
    a.trigger_time < b.trigger_time || (a.trigger_time == b.trigger_time && a.sequence
        < b.sequence)
}

/// No event runs strictly before one that precedes it.
pub open spec fn ordered(s: Seq<EventView>) -> bool {
    forall|i: int, j: int| 0 <= i < j < s.len() ==> !key_lt(#[trigger] s[j], #[trigger] s[i])
}

/// The test that an event runs strictly after `e`.
pub open spec fn runs_after(e: EventView) -> spec_fn(EventView) -> bool {
    |x: EventView| key_lt(e, x)
}

/// `e` placed after every event of `s` that does not run strictly after it.
pub open spec fn insert_ordered(s: Seq<EventView>, e: EventView) -> Seq<EventView> {
    match first_where(s, runs_after(e)) {
        Some(i) => s.insert(i, e),
        None => s.push(e),
    }
}

/// The events of `s` ordered by trigger time and sequence number, events with
/// the same key in the order of `s`.
pub open spec fn ordered_from(s: Seq<EventView>) -> Seq<EventView>
    decreases s.len(),
{
    if s.len() == 0 {
        Seq::empty()
    } else {
        insert_ordered(ordered_from(s.drop_last()), s.last())
    }
}

/// The event that saved event `e` at position `i` loads as, if its callback
/// type is known and its function id is valid.
pub open spec fn load_event(e: EventDataView, i: int) -> Option<EventView> {
    match (kind_from_callback(e.callback_type), parse_identifier(e.callback_id)) {
        (Some(kind), Some(id)) => Some(
            EventView { trigger_time: e.trigger_time, sequence: i as u64, name: e.id, id, kind },
        ),
        _ => None,
    }
}

/// The saved events that load, in the saved order.
pub open spec fn loaded_events(d: Seq<EventDataView>) -> Seq<EventView>
    decreases d.len(),
{
    if d.len() == 0 {
        Seq::empty()
    } else {
        loaded_events(d.drop_last()) + match load_event(d.last(), d.len() - 1) {
            Some(e) => seq![e],
            None => Seq::empty(),
        }
    }
}

/// The name an event for `id` is listed under: the id, with `#` in front
/// for a tag.
pub open spec fn event_name(id: IdentifierView, kind: ScheduledFunctionKind) -> Seq<char> {
    let written = id.namespace + seq![':'] + id.path;
    match kind {
        ScheduledFunctionKind::Function => written,
        ScheduledFunctionKind::Tag => seq!['#'] + written,
    }
}

/// `a + b`, held within the range of `i64`.
pub open spec fn saturating_sum(a: i64, b: int) -> i64 {
    if a + b > i64::MAX {
        i64::MAX
    } else if a + b < i64::MIN {
        i64::MIN
    } else {
        (a + b) as i64
    }
}

pub struct SchedulerView {
    pub events: Seq<EventView>,
    pub game_time: i64,
    pub next_sequence: u64,
}

pub open spec fn not_named(name: Seq<char>) -> spec_fn(EventView) -> bool {
    |e: EventView| e.name != name
}

/// The events that remain when scheduling under `name`: with `replace`,
/// those of another name.
pub open spec fn kept_events(events: Seq<EventView>, name: Seq<char>, replace: bool) -> Seq<EventView> {
    if replace {
        events.filter(not_named(name))
    } else {
        events
    }
}

/// Some event of `s` is named `name` and triggers at `t`.
pub open spec fn has_event_at(s: Seq<EventView>, name: Seq<char>, t: i64) -> bool {
    exists|i: int| 0 <= i < s.len() && #[trigger] s[i].name == name && s[i].trigger_time == t
}

/// The state and trigger time after scheduling `id`: with `replace`, the
/// events of the same name are dropped first; an event of the same name and
/// trigger time that remains makes the call change nothing more.
pub open spec fn schedule_result(
    v: SchedulerView,
    id: IdentifierView,
    kind: ScheduledFunctionKind,
    delay: i32,
    replace: bool,
) -> (SchedulerView, i64) {
    let t = saturating_sum(v.game_time, delay as int);
    let name = event_name(id, kind);
    let kept = kept_events(v.events, name, replace);
    if has_event_at(kept, name, t) {
        (SchedulerView { events: kept, ..v }, t)
    } else {
        (
            SchedulerView {
                events: insert_ordered(
                    kept,
                    EventView { trigger_time: t, sequence: v.next_sequence, name, id, kind },
                ),
                next_sequence: (v.next_sequence + 1) as u64,
                ..v
            },
            t,
        )
    }
}

/// Schedules functions and function tags by game time.
pub struct FunctionScheduler {
    events: Vec<ScheduledFunction>,
    game_time: i64,
    next_sequence: u64,
}

impl View for FunctionScheduler {
    type V = SchedulerView;

    closed spec fn view(&self) -> SchedulerView {
        SchedulerView {
            events: events_view(self.events@),
            game_time: self.game_time,
            next_sequence: self.next_sequence,
        }
    }
}

proof fn lemma_insert_ordered(s: Seq<EventView>, e: EventView)
    requires
        ordered(s),
    ensures
        ordered(insert_ordered(s, e)),
        insert_ordered(s, e).len() == s.len() + 1,
        insert_ordered(s, e).contains(e),
        forall|x: EventView| #[trigger] insert_ordered(s, e).contains(x) <==> (s.contains(x) || x == e),
{
    let p = runs_after(e);
    lemma_first_where_some(s, p);
    let r = insert_ordered(s, e);
    let k = match first_where(s, p) {
        Some(i) => i,
        None => s.len() as int,
    };
    assert(r =~= s.insert(k, e)) by {
        if k == s.len() {
            assert(s.insert(k, e) =~= s.push(e));
        }
    }
    s.insert_ensures(k, e);
    assert forall|i: int, j: int| 0 <= i < j < r.len() implies !key_lt(#[trigger] r[j], #[trigger] r[i]) by {
        if j < k {
        } else if j == k {
            assert(!p(s[i]));
        } else if i < k {
            assert(r[j] == s[j - 1]);
            assert(!p(s[i]));
            assert(p(s[k]));
            if j - 1 > k {
                assert(!key_lt(s[j - 1], s[k]));
            }
        } else if i == k {
            assert(r[j] == s[j - 1]);
            assert(p(s[k]));
            if j - 1 > k {
                assert(!key_lt(s[j - 1], s[k]));
            }
        } else {
            assert(r[i] == s[i - 1]);
            assert(r[j] == s[j - 1]);
        }
    }
    assert forall|x: EventView| #[trigger] r.contains(x) <==> (s.contains(x) || x == e) by {
        if s.contains(x) {
            let m = choose|m: int| 0 <= m < s.len() && s[m] == x;
            if m < k {
                assert(r[m] == x);
            } else {
                assert(r[m + 1] == x);
            }
        }
        if r.contains(x) {
            let m = choose|m: int| 0 <= m < r.len() && r[m] == x;
            if m < k {
                assert(s[m] == x);
            } else if m > k {
                assert(s[m - 1] == x);
            }
        }
    }
    assert(r[k] == e);
}

proof fn lemma_filter_ordered(s: Seq<EventView>, p: spec_fn(EventView) -> bool)
    requires
        ordered(s),
    ensures
        ordered(s.filter(p)),
    decreases s.len(),
{
    reveal(Seq::filter);
    if s.len() > 0 {
        let rest = s.drop_last();
        lemma_filter_ordered(rest, p);
        let f = rest.filter(p);
        crate::text::lemma_filter_elements(rest, p);
        if p(s.last()) {
            let g = f.push(s.last());
            assert(s.filter(p) == g);
            assert forall|i: int, j: int| 0 <= i < j < g.len() implies !key_lt(#[trigger] g[j], #[trigger] g[i]) by {
                if j == f.len() {
                    assert(rest.contains(f[i]));
                    let m = choose|m: int| 0 <= m < rest.len() && rest[m] == f[i];
                    assert(s[m] == f[i]);
                    assert(s[s.len() - 1] == s.last());
                }
            }
        }
    }
}

impl FunctionScheduler {
    #[verifier::type_invariant]
    spec fn well_ordered(self) -> bool {
        ordered(events_view(self.events@))
    }

    /// Inserts `e` after every event that does not run strictly after it.
    fn insert_event(&mut self, e: ScheduledFunction)
        ensures
            final(self)@ == (SchedulerView { events: insert_ordered(old(self)@.events, e@), ..old(self)@ }),
    {
        proof {
            use_type_invariant(&*self);
        }
        let ghost s = self@.events;
        let ghost ev = e@;
        let mut i: usize = 0;
        while i < self.events.len()
            invariant
                i <= self.events@.len(),
                s == events_view(self.events@),
                ev == e@,
                forall|j: int| 0 <= j < i ==> !runs_after(ev)(#[trigger] s[j]),
            ensures
                i <= self.events@.len(),
                s == events_view(self.events@),
                forall|j: int| 0 <= j < i ==> !runs_after(ev)(#[trigger] s[j]),
                i < s.len() ==> runs_after(ev)(s[i as int]),
            decreases self.events@.len() - i,
        {
            let x = &self.events[i];
            if e.trigger_time < x.trigger_time || (e.trigger_time == x.trigger_time && e.sequence
                < x.sequence) {
                break;
            }
            i = i + 1;
        }
        proof {
            lemma_insert_ordered(s, ev);
            if i < s.len() {
                assert(runs_after(ev)(s[i as int]));
                lemma_first_where(s, runs_after(ev), i as int);
            } else {
                lemma_first_where_none(s, runs_after(ev));
            }
        }
        let ghost events = self.events@;
        let mut moved = Vec::new();
        std::mem::swap(&mut moved, &mut self.events);
        moved.insert(i, e);
        proof {
            assert(events_view(moved@) =~= insert_ordered(s, ev)) by {
                if i == s.len() {
                    assert(s.insert(i as int, ev) =~= s.push(ev));
                }
                assert(events_view(moved@) =~= s.insert(i as int, ev));
            }
        }
        self.events = moved;
    }

    /// The scheduler of a world whose saved events are `data` and whose game
    /// time is `game_time`. Saved events with an unknown callback type or an
    /// invalid function id are dropped; the others keep their saved position
    /// as sequence number.
    pub fn new(data: &ScheduledEventsData, game_time: i64) -> (r: FunctionScheduler)
        requires
            data.events@.len() < u64::MAX,
        ensures
            r@.events == ordered_from(loaded_events(data.events@.map_values(|e: ScheduledEventData| e@))),
            r@.game_time == game_time,
            r@.next_sequence == loaded_events(data.events@.map_values(|e: ScheduledEventData| e@)).len(),
    {
        let ghost d = data.events@.map_values(|e: ScheduledEventData| e@);
        let mut scheduler = FunctionScheduler { events: Vec::new(), game_time, next_sequence: 0 };
        let mut count: u64 = 0;
        let mut i: usize = 0;
        proof {
            assert(events_view(scheduler.events@) =~= Seq::<EventView>::empty());
        }
        while i < data.events.len()
            invariant
                i <= data.events@.len(),
                data.events@.len() < u64::MAX,
                d == data.events@.map_values(|e: ScheduledEventData| e@),
                scheduler@.events == ordered_from(loaded_events(d.take(i as int))),
                scheduler@.game_time == game_time,
                scheduler@.next_sequence == 0,
                count == loaded_events(d.take(i as int)).len(),
                count <= i,
            decreases data.events@.len() - i,
        {
            let event = &data.events[i];
            proof {
                assert(d.take(i + 1).drop_last() =~= d.take(i as int));
                assert(d.take(i + 1).last() == event@);
                lemma_loaded_events_step(d.take(i + 1));
            }
            if let Some(kind) = kind_of_callback(event.callback.callback_type.as_str()) {
                if let Some(id) = Identifier::parse(event.callback.id.as_str()) {
                    let e = ScheduledFunction {
                        trigger_time: event.trigger_time,
                        sequence: i as u64,
                        name: event.id.clone(),
                        id,
                        kind,
                    };
                    scheduler.insert_event(e);
                    count = count + 1;
                    proof {
                        lemma_ordered_from_push(loaded_events(d.take(i as int)), e@);
                    }
                } else {
                    proof {
                        assert(loaded_events(d.take(i + 1)) =~= loaded_events(d.take(i as int)));
                    }
                }
            } else {
                proof {
                    assert(loaded_events(d.take(i + 1)) =~= loaded_events(d.take(i as int)));
                }
            }
            i = i + 1;
        }
        proof {
            assert(d.take(d.len() as int) =~= d);
        }
        proof {
            use_type_invariant(&scheduler);
        }
        scheduler.next_sequence = count;
        scheduler
    }
}

proof fn lemma_loaded_events_step(d: Seq<EventDataView>)
    requires
        d.len() > 0,
    ensures
        loaded_events(d) == loaded_events(d.drop_last()) + match load_event(d.last(), d.len() - 1) {
            Some(e) => seq![e],
            None => Seq::<EventView>::empty(),
        },
{
}

proof fn lemma_ordered_from_push(s: Seq<EventView>, e: EventView)
    ensures
        ordered_from(s + seq![e]) == insert_ordered(ordered_from(s), e),
{
    let t = s + seq![e];
    assert(t.drop_last() =~= s);
    assert(t.last() == e);
}


fn saturating_add_delay(time: i64, delay: i32) -> (r: i64)
    ensures
        r == saturating_sum(time, delay as int),
{
    let d = delay as i64;
    if d >= 0 {
        if time > i64::MAX - d {
            i64::MAX
        } else {
            time + d
        }
    } else {
        if time < i64::MIN - d {
            i64::MIN
        } else {
            time + d
        }
    }
}

fn name_for(id: &Identifier, kind: ScheduledFunctionKind) -> (r: String)
    ensures
        r@ == event_name(id@, kind),
{
    let written = id.to_string();
    match kind {
        ScheduledFunctionKind::Function => written,
        ScheduledFunctionKind::Tag => {
            let mut name = owned("#");
            push_str(&mut name, written.as_str());
            proof {
                reveal_strlit("#");
                assert(name@ =~= event_name(id@, kind));
            }
            name
        },
    }
}

impl ScheduledFunction {
    /// An event equal to this one.
    pub fn copy(&self) -> (r: ScheduledFunction)
        ensures
            r@ == self@,
    {
        ScheduledFunction {
            trigger_time: self.trigger_time,
            sequence: self.sequence,
            name: self.name.clone(),
            id: self.id.copy(),
            kind: self.kind,
        }
    }
}

impl FunctionScheduler {
    /// The game time.
    pub fn current_time(&self) -> (r: i64)
        ensures
            r == self@.game_time,
    {
        self.game_time
    }

    /// The scheduled events, in the order they will run.
    pub fn events(&self) -> (r: &Vec<ScheduledFunction>)
        ensures
            events_view(r@) == self@.events,
            ordered(self@.events),
    {
        proof {
            use_type_invariant(self);
        }
        &self.events
    }

    /// Drops every event named `name`; returns how many were dropped.
    fn remove_named(&mut self, name: &String) -> (r: usize)
        ensures
            final(self)@ == (SchedulerView {
                events: old(self)@.events.filter(not_named(name@)),
                ..old(self)@
            }),
            r == old(self)@.events.len() - final(self)@.events.len(),
    {
        proof {
            use_type_invariant(&*self);
        }
        let ghost s = self@.events;
        let mut kept: Vec<ScheduledFunction> = Vec::new();
        let mut i: usize = 0;
        while i < self.events.len()
            invariant
                i <= self.events@.len(),
                s == events_view(self.events@),
                events_view(kept@) == s.take(i as int).filter(not_named(name@)),
            decreases self.events@.len() - i,
        {
            proof {
                crate::text::lemma_filter_take_step(s, not_named(name@), i as int);
            }
            if !string_eq(&self.events[i].name, name) {
                let ghost before = kept@;
                kept.push(self.events[i].copy());
                proof {
                    assert(events_view(kept@) =~= events_view(before).push(s[i as int]));
                }
            }
            i = i + 1;
        }
        proof {
            assert(s.take(s.len() as int) =~= s);
            lemma_filter_ordered(s, not_named(name@));
            crate::text::lemma_filter_elements(s, not_named(name@));
        }
        let removed = self.events.len() - kept.len();
        self.events = kept;
        removed
    }

    #[verifier::spinoff_prover]
    #[verifier::rlimit(30)]
    /// Schedules `id` to run `delay` ticks from now (the time saturates at
    /// the bounds of `i64`) and returns the trigger time; see
    /// [`schedule_result`].
    pub fn schedule(&mut self, id: Identifier, kind: ScheduledFunctionKind, delay: i32, replace: bool) -> (r: i64)
        requires
            old(self)@.next_sequence < u64::MAX,
        ensures
            (final(self)@, r) == schedule_result(old(self)@, id@, kind, delay, replace),
    {
        let ghost v = self@;
        let t = saturating_add_delay(self.game_time, delay);
        let name = name_for(&id, kind);
        if replace {
            self.remove_named(&name);
        }
        let ghost kept = self@.events;
        proof {
            use_type_invariant(&*self);
        }
        let mut found = false;
        let mut i: usize = 0;
        while i < self.events.len()
            invariant
                i <= self.events@.len(),
                kept == events_view(self.events@),
                found == exists|j: int| 0 <= j < i && #[trigger] kept[j].name == name@ && kept[j].trigger_time == t,
            decreases self.events@.len() - i,
        {
            if self.events[i].trigger_time == t && string_eq(&self.events[i].name, &name) {
                found = true;
            }
            proof {
                if kept[i as int].name == name@ && kept[i as int].trigger_time == t {
                    assert(kept[i as int].name == name@);
                }
            }
            i = i + 1;
        }
        let ghost idv = id@;
        let ghost namev = name@;
        let ghost eview = EventView {
            trigger_time: t,
            sequence: v.next_sequence,
            name: namev,
            id: idv,
            kind,
        };
        proof {
            assert(namev == event_name(idv, kind));
            assert(kept == kept_events(v.events, namev, replace));
        }
        if !found {
            let e = ScheduledFunction { trigger_time: t, sequence: self.next_sequence, name, id, kind };
            assert(e@ == eview);
            self.insert_event(e);
            proof {
                use_type_invariant(&*self);
            }
            self.next_sequence = self.next_sequence + 1;
            proof {
                assert(self@ == (SchedulerView {
                    events: insert_ordered(kept, eview),
                    next_sequence: (v.next_sequence + 1) as u64,
                    ..v
                }));
            }
        }
        proof {
            let res = schedule_result(v, idv, kind, delay, replace);
            assert(res.1 == t);
            if found {
                let j = choose|j: int| 0 <= j < kept.len() && #[trigger] kept[j].name == namev && kept[j].trigger_time == t;
                assert(kept[j].name == namev);
                assert(res.0 == SchedulerView { events: kept, ..v });
                assert(self@ == res.0);
            } else {
                assert(res.0 == SchedulerView {
                    events: insert_ordered(kept, eview),
                    next_sequence: (v.next_sequence + 1) as u64,
                    ..v
                });
            }
        }
        t
    }

    /// Drops every event named `name`; returns how many were dropped.
    pub fn clear(&mut self, name: &str) -> (r: usize)
        ensures
            final(self)@ == (SchedulerView {
                events: old(self)@.events.filter(not_named(name@)),
                ..old(self)@
            }),
            r == old(self)@.events.len() - final(self)@.events.len(),
    {
        let owned_name = owned(name);
        self.remove_named(&owned_name)
    }

    /// The names of the scheduled events, sorted, each once.
    pub fn event_names(&self) -> (r: Vec<String>)
        ensures
            sorted_strictly(names_view(r@)),
            forall|n: Seq<char>| #[trigger] names_view(r@).contains(n) <==> exists|i: int|
                0 <= i < self@.events.len() && #[trigger] self@.events[i].name == n,
    {
        let mut names: Vec<String> = Vec::new();
        let mut i: usize = 0;
        proof {
            assert(names_view(names@) =~= Seq::<Seq<char>>::empty());
        }
        while i < self.events.len()
            invariant
                i <= self.events@.len(),
                sorted_strictly(names_view(names@)),
                forall|n: Seq<char>|
                    #[trigger] names_view(names@).contains(n) <==> exists|j: int|
                        0 <= j < i && #[trigger] self@.events[j].name == n,
            decreases self.events@.len() - i,
        {
            proof {
                assert(self@.events[i as int] == self.events@[i as int]@);
            }
            let ghost before = names_view(names@);
            insert_sorted(&mut names, self.events[i].name.clone());
            proof {
                assert forall|n: Seq<char>| #[trigger] names_view(names@).contains(n) <==> exists|j: int|
                    0 <= j < i + 1 && #[trigger] self@.events[j].name == n by {
                    if n == self@.events[i as int].name {
                        assert(self@.events[i as int].name == n);
                    }
                    if exists|j: int| 0 <= j < i + 1 && #[trigger] self@.events[j].name == n {
                        let j = choose|j: int| 0 <= j < i + 1 && #[trigger] self@.events[j].name == n;
                        if j < i {
                            assert(before.contains(n));
                        }
                    }
                }
            }
            i = i + 1;
        }
        names
    }

    /// The events in the form they are saved, in the order they will run.
    pub fn snapshot(&self, data_version: i32) -> (r: ScheduledEventsData)
        ensures
            r.data_version == data_version,
            r.events@.len() == self@.events.len(),
            forall|i: int| 0 <= i < r.events@.len() ==> #[trigger] r.events@[i]@ == saved_event(self@.events[i]),
            ordered(self@.events),
    {
        proof {
            use_type_invariant(self);
        }
        let mut events: Vec<ScheduledEventData> = Vec::new();
        let mut i: usize = 0;
        while i < self.events.len()
            invariant
                i <= self.events@.len(),
                events@.len() == i,
                forall|j: int| 0 <= j < i ==> #[trigger] events@[j]@ == saved_event(self@.events[j]),
            decreases self.events@.len() - i,
        {
            let e = &self.events[i];
            proof {
                assert(self@.events[i as int] == e@);
            }
            events.push(ScheduledEventData {
                trigger_time: e.trigger_time,
                id: e.name.clone(),
                callback: ScheduledEventCallbackData {
                    callback_type: owned(e.kind.callback_type()),
                    id: e.id.to_string(),
                },
            });
            i = i + 1;
        }
        ScheduledEventsData { data_version, events }
    }

    #[verifier::spinoff_prover]
    #[verifier::rlimit(30)]
    /// Advances the game time by one tick and hands back the events that are
    /// due, in the order they run; they leave the scheduler.
    pub fn tick(&mut self) -> (r: Vec<ScheduledFunction>)
        requires
            old(self)@.game_time < i64::MAX,
        ensures
            final(self)@.game_time == old(self)@.game_time + 1,
            final(self)@.next_sequence == old(self)@.next_sequence,
            events_view(r@) + final(self)@.events == old(self)@.events,
            forall|i: int| 0 <= i < r@.len() ==> (#[trigger] r@[i]).trigger_time <= final(self)@.game_time,
            forall|i: int| 0 <= i < final(self)@.events.len() ==> (#[trigger] final(self)@.events[i]).trigger_time
                > final(self)@.game_time,
            ordered(events_view(r@)),
    {
        proof {
            use_type_invariant(&*self);
        }
        self.game_time = self.game_time + 1;
        let now = self.game_time;
        let ghost s = self@.events;
        let mut k: usize = 0;
        while k < self.events.len() && self.events[k].trigger_time <= now
            invariant
                k <= self.events@.len(),
                s == events_view(self.events@),
                now == self@.game_time,
                forall|j: int| 0 <= j < k ==> s[j].trigger_time <= now,
            decreases self.events@.len() - k,
        {
            k = k + 1;
        }
        let mut due: Vec<ScheduledFunction> = Vec::new();
        let mut rest: Vec<ScheduledFunction> = Vec::new();
        let mut i: usize = 0;
        while i < self.events.len()
            invariant
                k <= self.events@.len(),
                i <= self.events@.len(),
                s == events_view(self.events@),
                i <= k ==> events_view(due@) == s.take(i as int) && rest@.len() == 0,
                i > k ==> events_view(due@) == s.take(k as int) && events_view(rest@) == s.subrange(
                    k as int,
                    i as int,
                ),
            decreases self.events@.len() - i,
        {
            let ghost d0 = due@;
            let ghost r0 = rest@;
            if i < k {
                due.push(self.events[i].copy());
                proof {
                    assert(events_view(due@) =~= s.take(i + 1));
                }
            } else {
                rest.push(self.events[i].copy());
                proof {
                    assert(events_view(rest@) =~= s.subrange(k as int, i + 1));
                    if i == k {
                        assert(events_view(due@) =~= s.take(k as int));
                    }
                }
            }
            i = i + 1;
        }
        proof {
            if k == s.len() {
                assert(events_view(rest@) =~= Seq::<EventView>::empty());
                assert(events_view(due@) =~= s.take(k as int));
            }
            assert(events_view(rest@) =~= s.subrange(k as int, s.len() as int));
            assert(events_view(due@) + events_view(rest@) =~= s);
            assert forall|a: int, b: int| 0 <= a < b < events_view(rest@).len() implies !key_lt(
                #[trigger] events_view(rest@)[b],
                #[trigger] events_view(rest@)[a],
            ) by {
                assert(events_view(rest@)[a] == s[k + a]);
                assert(events_view(rest@)[b] == s[k + b]);
            }
            assert forall|j: int| 0 <= j < events_view(rest@).len() implies (#[trigger] events_view(rest@)[j]).trigger_time > now by {
                assert(events_view(rest@)[j] == s[k + j]);
                if k < s.len() {
                    assert(!(s[k as int].trigger_time <= now));
                    if j > 0 {
                        assert(!key_lt(s[k + j], s[k as int]));
                    }
                }
            }
        }
        self.events = rest;
        proof {
            assert forall|j: int| 0 <= j < due@.len() implies (#[trigger] due@[j]).trigger_time <= now by {
                assert(events_view(due@)[j] == due@[j]@);
                assert(events_view(due@)[j] == s[j]);
            }
            assert forall|a: int, b: int| 0 <= a < b < events_view(due@).len() implies !key_lt(
                #[trigger] events_view(due@)[b],
                #[trigger] events_view(due@)[a],
            ) by {
                assert(events_view(due@)[a] == s[a]);
                assert(events_view(due@)[b] == s[b]);
            }
        }
        due
    }
}

/// How an event is saved.
pub open spec fn saved_event(e: EventView) -> EventDataView {
    EventDataView {
        trigger_time: e.trigger_time,
        id: e.name,
        callback_type: callback_name(e.kind),
        callback_id: e.id.namespace + seq![':'] + e.id.path,
    }
}

/// With `replace`, scheduling leaves exactly one event of the scheduled
/// name, at the returned trigger time.
#[verifier::spinoff_prover]
#[verifier::rlimit(40)]
pub proof fn lemma_replace_leaves_one(
    v: SchedulerView,
    id: IdentifierView,
    kind: ScheduledFunctionKind,
    delay: i32,
)
    requires
        ordered(v.events),
    ensures
        ({
            let (w, t) = schedule_result(v, id, kind, delay, true);
            let name = event_name(id, kind);
            &&& exists|i: int| 0 <= i < w.events.len() && #[trigger] w.events[i].name == name
                && w.events[i].trigger_time == t
            &&& forall|i: int, j: int|
                0 <= i < w.events.len() && 0 <= j < w.events.len() && #[trigger] w.events[i].name
                    == name && #[trigger] w.events[j].name == name ==> i == j
        }),
{
    let name = event_name(id, kind);
    let kept = v.events.filter(not_named(name));
    crate::text::lemma_filter_elements(v.events, not_named(name));
    lemma_filter_ordered(v.events, not_named(name));
    assert forall|i: int| 0 <= i < kept.len() implies (#[trigger] kept[i]).name != name by {
        assert(not_named(name)(kept[i]));
    }
    let t = saturating_sum(v.game_time, delay as int);
    let e = EventView { trigger_time: t, sequence: v.next_sequence, name, id, kind };
    lemma_insert_ordered(kept, e);
    let w = insert_ordered(kept, e);
    lemma_first_where_some(kept, runs_after(e));
    let kk = match first_where(kept, runs_after(e)) {
        Some(i) => i,
        None => kept.len() as int,
    };
    assert(w =~= kept.insert(kk, e)) by {
        if kk == kept.len() {
            assert(kept.insert(kk, e) =~= kept.push(e));
        }
    }
    assert(w[kk] == e);
    assert(w[kk].name == name && w[kk].trigger_time == t);
    assert(!(exists|i: int| 0 <= i < kept.len() && #[trigger] kept[i].name == name && kept[i].trigger_time == t));
    assert(schedule_result(v, id, kind, delay, true).0.events == w);
    assert forall|i: int| 0 <= i < w.len() && #[trigger] w[i].name == name implies i == kk by {
        if i < kk {
            assert(w[i] == kept[i]);
        } else if i > kk {
            assert(w[i] == kept[i - 1]);
        }
    }
}

/// After scheduling, an event of the scheduled name triggers at the
/// returned time.
pub proof fn lemma_scheduled_event_exists(
    v: SchedulerView,
    id: IdentifierView,
    kind: ScheduledFunctionKind,
    delay: i32,
    replace: bool,
)
    requires
        ordered(v.events),
    ensures
        has_event_at(
            schedule_result(v, id, kind, delay, replace).0.events,
            event_name(id, kind),
            schedule_result(v, id, kind, delay, replace).1,
        ),
{
    let name = event_name(id, kind);
    let t = saturating_sum(v.game_time, delay as int);
    let kept = kept_events(v.events, name, replace);
    if !has_event_at(kept, name, t) {
        if replace {
            lemma_filter_ordered(v.events, not_named(name));
        }
        let e = EventView { trigger_time: t, sequence: v.next_sequence, name, id, kind };
        lemma_insert_ordered(kept, e);
        let w = insert_ordered(kept, e);
        let k = choose|k: int| 0 <= k < w.len() && w[k] == e;
        assert(w[k].name == name && w[k].trigger_time == t);
    }
}

/// Clearing a name leaves no event of that name, and the other events in
/// their order.
pub proof fn lemma_clear_leaves_none(events: Seq<EventView>, name: Seq<char>)
    ensures
        forall|i: int| 0 <= i < events.filter(not_named(name)).len() ==> (#[trigger] events.filter(
            not_named(name),
        )[i]).name != name,
        forall|i: int| 0 <= i < events.len() && (#[trigger] events[i]).name != name ==> events.filter(
            not_named(name),
        ).contains(events[i]),
{
    crate::text::lemma_filter_elements(events, not_named(name));
    assert forall|i: int| 0 <= i < events.filter(not_named(name)).len() implies (#[trigger] events.filter(
        not_named(name),
    )[i]).name != name by {
        assert(not_named(name)(events.filter(not_named(name))[i]));
    }
    assert forall|i: int| 0 <= i < events.len() && (#[trigger] events[i]).name != name implies events.filter(
        not_named(name),
    ).contains(events[i]) by {
        assert(not_named(name)(events[i]));
    }
}

/// The events of `events`, each numbered by its position.
pub open spec fn renumbered(events: Seq<EventView>) -> Seq<EventView> {
    Seq::new(events.len(), |i: int| EventView { sequence: i as u64, ..events[i] })
}

/// An event whose function id is one that reads back as itself.
pub open spec fn id_writable(e: EventView) -> bool {
    e.id.namespace.len() > 0 && all_namespace_chars(e.id.namespace) && all_path_chars(e.id.path)
}

proof fn lemma_loaded_saved(events: Seq<EventView>)
    requires
        events.len() < u64::MAX,
        forall|i: int| 0 <= i < events.len() ==> id_writable(#[trigger] events[i]),
    ensures
        loaded_events(events.map_values(|e: EventView| saved_event(e))) == renumbered(events),
    decreases events.len(),
{
    if events.len() > 0 {
        let rest = events.drop_last();
        assert forall|i: int| 0 <= i < rest.len() implies id_writable(#[trigger] rest[i]) by {
            assert(rest[i] == events[i]);
        }
        lemma_loaded_saved(rest);
        let d = events.map_values(|e: EventView| saved_event(e));
        assert(d.drop_last() =~= rest.map_values(|e: EventView| saved_event(e)));
        let e = events.last();
        assert(id_writable(events[events.len() - 1]));
        crate::stopwatch::lemma_written_id_parses(e.id);
        reveal_strlit("minecraft:function");
        reveal_strlit("minecraft:function_tag");
        reveal_strlit("function");
        reveal_strlit("function_tag");
        assert("minecraft:function"@.len() == 18 && "function"@.len() == 8);
        assert("minecraft:function_tag"@.len() == 22 && "function_tag"@.len() == 12);
        assert(kind_from_callback(callback_name(e.kind)) == Some(e.kind)) by {
            match e.kind {
                ScheduledFunctionKind::Function => {},
                ScheduledFunctionKind::Tag => {
                    assert("minecraft:function_tag"@ != "minecraft:function"@);
                    assert("minecraft:function_tag"@ != "function"@);
                },
            }
        }
        assert(load_event(d.last(), d.len() - 1) == Some(
            EventView { sequence: (events.len() - 1) as u64, ..e },
        ));
        assert(loaded_events(d) =~= renumbered(events));
    }
}

proof fn lemma_ordered_from_ordered(s: Seq<EventView>)
    requires
        ordered(s),
    ensures
        ordered_from(s) == s,
    decreases s.len(),
{
    if s.len() > 0 {
        let rest = s.drop_last();
        assert(ordered(rest)) by {
            assert forall|i: int, j: int| 0 <= i < j < rest.len() implies !key_lt(#[trigger] rest[j], #[trigger] rest[i]) by {
                assert(rest[i] == s[i] && rest[j] == s[j]);
            }
        }
        lemma_ordered_from_ordered(rest);
        let last = s.last();
        assert forall|i: int| 0 <= i < rest.len() implies !runs_after(last)(#[trigger] rest[i]) by {
            assert(rest[i] == s[i]);
            assert(!key_lt(s[s.len() - 1], s[i]));
        }
        lemma_first_where_none(rest, runs_after(last));
        assert(rest.push(last) =~= s);
    }
}

/// Saving the scheduled events and loading them back, then saving again,
/// gives the same saved events, in the same order: loading numbers them
/// afresh, which keeps their order. A scheduler's events are ordered (see
/// [`FunctionScheduler::snapshot`]); their ids must read back as themselves.
pub proof fn lemma_snapshot_reload(events: Seq<EventView>)
    requires
        ordered(events),
        events.len() < u64::MAX,
        forall|i: int| 0 <= i < events.len() ==> id_writable(#[trigger] events[i]),
    ensures
        ({
            let saved = events.map_values(|e: EventView| saved_event(e));
            ordered_from(loaded_events(saved)).map_values(|e: EventView| saved_event(e)) == saved
        }),
{
    lemma_loaded_saved(events);
    let r = renumbered(events);
    assert(ordered(r)) by {
        assert forall|i: int, j: int| 0 <= i < j < r.len() implies !key_lt(#[trigger] r[j], #[trigger] r[i]) by {
            assert(!key_lt(events[j], events[i]));
        }
    }
    lemma_ordered_from_ordered(r);
    assert(r.map_values(|e: EventView| saved_event(e)) =~= events.map_values(|e: EventView| saved_event(e)));
}

/// The test that an event is due at `now`.
pub open spec fn due_at(now: i64) -> spec_fn(EventView) -> bool {
    |e: EventView| e.trigger_time <= now
}

/// The test that an event is not due yet at `now`.
pub open spec fn pending_at(now: i64) -> spec_fn(EventView) -> bool {
    |e: EventView| e.trigger_time > now
}

proof fn lemma_filter_all_or_none(s: Seq<EventView>, p: spec_fn(EventView) -> bool)
    ensures
        (forall|i: int| 0 <= i < s.len() ==> p(#[trigger] s[i])) ==> s.filter(p) == s,
        (forall|i: int| 0 <= i < s.len() ==> !p(#[trigger] s[i])) ==> s.filter(p) == Seq::<EventView>::empty(),
    decreases s.len(),
{
    reveal(Seq::filter);
    if s.len() > 0 {
        let rest = s.drop_last();
        assert forall|i: int| 0 <= i < rest.len() implies rest[i] == s[i] by {}
        lemma_filter_all_or_none(rest, p);
        if forall|i: int| 0 <= i < s.len() ==> p(#[trigger] s[i]) {
            assert(p(s[s.len() - 1]));
            assert(rest.push(s.last()) =~= s);
        }
        if forall|i: int| 0 <= i < s.len() ==> !p(#[trigger] s[i]) {
            assert(!p(s[s.len() - 1]));
        }
    }
}

/// A tick splits the events exactly: it hands out every event that is due
/// at the new time, in order, and keeps every other one, in order.
pub proof fn lemma_tick_partition(before: Seq<EventView>, handed: Seq<EventView>, kept: Seq<EventView>, now: i64)
    requires
        handed + kept == before,
        forall|i: int| 0 <= i < handed.len() ==> (#[trigger] handed[i]).trigger_time <= now,
        forall|i: int| 0 <= i < kept.len() ==> (#[trigger] kept[i]).trigger_time > now,
    ensures
        handed == before.filter(due_at(now)),
        kept == before.filter(pending_at(now)),
{
    Seq::filter_distributes_over_add(handed, kept, due_at(now));
    Seq::filter_distributes_over_add(handed, kept, pending_at(now));
    lemma_filter_all_or_none(handed, due_at(now));
    lemma_filter_all_or_none(kept, due_at(now));
    lemma_filter_all_or_none(handed, pending_at(now));
    lemma_filter_all_or_none(kept, pending_at(now));
    assert(handed + Seq::<EventView>::empty() =~= handed);
    assert(Seq::<EventView>::empty() + kept =~= kept);
}

} // verus!
