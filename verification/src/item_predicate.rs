//! The item predicate argument of commands, such as
//! `minecraft:potion[minecraft:potion_contents={...},!minecraft:max_stack_size=64]`:
//! how it is read, and which stacks it accepts.
use vstd::prelude::*;

use crate::data_pack::{trim, trimmed};
use crate::team::names_view;
use crate::reader::{CommandSyntaxError, StringReader};
use crate::text::{char_is_whitespace, is_whitespace};

verus! {

/// Where a scan of a predicate stands: how deep inside square brackets and
/// braces, inside which quotes, and whether the next character is escaped.
pub struct ScanState {
    pub square: nat,
    pub curly: nat,
    pub quote: Option<char>,
    pub escaped: bool,
}

pub open spec fn scan_start() -> ScanState {
    ScanState { square: 0, curly: 0, quote: None, escaped: false }
}

/// The scan after one more character.
pub open spec fn scan_step(st: ScanState, c: char) -> ScanState {
    if st.escaped {
        ScanState { escaped: false, ..st }
    } else if c == '\\' && st.quote is Some {
        ScanState { escaped: true, ..st }
    } else if st.quote is Some {
        if c == st.quote->0 {
            ScanState { quote: None, ..st }
        } else {
            st
        }
    } else if c == '\'' || c == '"' {
        ScanState { quote: Some(c), ..st }
    } else if c == '[' {
        ScanState { square: st.square + 1, ..st }
    } else if c == ']' {
        ScanState { square: if st.square > 0 { (st.square - 1) as nat } else { 0 }, ..st }
    } else if c == '{' {
        ScanState { curly: st.curly + 1, ..st }
    } else if c == '}' {
        ScanState { curly: if st.curly > 0 { (st.curly - 1) as nat } else { 0 }, ..st }
    } else {
        st
    }
}

/// Outside quotes and brackets.
pub open spec fn at_top(st: ScanState) -> bool {
    st.quote is None && st.square == 0 && st.curly == 0
}

/// Where the predicate that starts at `i` ends: at the first whitespace
/// outside quotes and brackets, or at the end.
pub open spec fn token_end(s: Seq<char>, i: int, st: ScanState) -> int
    decreases s.len() - i,
{
    if i >= s.len() || i < 0 {
        s.len() as int
    } else if at_top(st) && is_whitespace(s[i]) {
        i
    } else {
        token_end(s, i + 1, scan_step(st, s[i]))
    }
}

/// The character at `i` is `delimiter` outside quotes and brackets.
pub open spec fn delimiter_at(st: ScanState, c: char, delimiter: char) -> bool {
    &&& !st.escaped
    &&& !(c == '\\' && st.quote is Some)
    &&& at_top(st)
    &&& c != '\'' && c != '"' && c != '[' && c != ']' && c != '{' && c != '}'
    &&& c == delimiter
}

/// The positions from `i` on of `delimiter` outside quotes and brackets.
pub open spec fn delimiter_positions(s: Seq<char>, i: int, st: ScanState, delimiter: char) -> Seq<int>
    decreases s.len() - i,
{
    if i >= s.len() || i < 0 {
        Seq::empty()
    } else {
        (if delimiter_at(st, s[i], delimiter) {
            seq![i]
        } else {
            Seq::empty()
        }) + delimiter_positions(s, i + 1, scan_step(st, s[i]), delimiter)
    }
}

/// The pieces of `s` between the given delimiter positions.
pub open spec fn pieces(s: Seq<char>, positions: Seq<int>, start: int) -> Seq<Seq<char>>
    decreases positions.len(),
{
    if positions.len() == 0 {
        seq![s.subrange(start, s.len() as int)]
    } else {
        seq![s.subrange(start, positions[0])] + pieces(s, positions.drop_first(), positions[0] + 1)
    }
}

pub proof fn lemma_delimiter_positions(s: Seq<char>, i: int, st: ScanState, delimiter: char)
    requires
        0 <= i <= s.len(),
    ensures
        forall|k: int|
            0 <= k < delimiter_positions(s, i, st, delimiter).len() ==> i <= #[trigger] delimiter_positions(
                s,
                i,
                st,
                delimiter,
            )[k] < s.len(),
        forall|k: int|
            0 <= k < delimiter_positions(s, i, st, delimiter).len() - 1 ==> #[trigger] delimiter_positions(
                s,
                i,
                st,
                delimiter,
            )[k] < delimiter_positions(s, i, st, delimiter)[k + 1],
    decreases s.len() - i,
{
    if i < s.len() {
        let next = scan_step(st, s[i]);
        lemma_delimiter_positions(s, i + 1, next, delimiter);
        let rest = delimiter_positions(s, i + 1, next, delimiter);
        let head = if delimiter_at(st, s[i], delimiter) {
            seq![i]
        } else {
            Seq::<int>::empty()
        };
        let all = delimiter_positions(s, i, st, delimiter);
        assert(all == head + rest);
        assert forall|k: int| 0 <= k < all.len() implies i <= #[trigger] all[k] < s.len() by {
            if k >= head.len() {
                assert(all[k] == rest[k - head.len()]);
            }
        }
        assert forall|k: int| 0 <= k < all.len() - 1 implies #[trigger] all[k] < all[k + 1] by {
            if k >= head.len() {
                assert(all[k] == rest[k - head.len()]);
                assert(all[k + 1] == rest[k + 1 - head.len()]);
            } else {
                assert(all[k + 1] == rest[0]);
            }
        }
    }
}

pub proof fn lemma_token_end(s: Seq<char>, i: int, st: ScanState)
    requires
        0 <= i <= s.len(),
    ensures
        i <= token_end(s, i, st) <= s.len(),
    decreases s.len() - i,
{
    if i < s.len() && !(at_top(st) && is_whitespace(s[i])) {
        lemma_token_end(s, i + 1, scan_step(st, s[i]));
    }
}

struct Scanner {
    square: usize,
    curly: usize,
    quote: Option<char>,
    escaped: bool,
}

impl Scanner {
    spec fn state(&self) -> ScanState {
        ScanState { square: self.square as nat, curly: self.curly as nat, quote: self.quote, escaped: self.escaped }
    }

    fn step(&mut self, c: char)
        requires
            old(self).square < usize::MAX,
            old(self).curly < usize::MAX,
        ensures
            final(self).state() == scan_step(old(self).state(), c),
            final(self).square <= old(self).square + 1,
            final(self).curly <= old(self).curly + 1,
    {
        if self.escaped {
            self.escaped = false;
        } else if c == '\\' && self.quote.is_some() {
            self.escaped = true;
        } else if let Some(d) = self.quote {
            if c == d {
                self.quote = None;
            }
        } else if c == '\'' || c == '"' {
            self.quote = Some(c);
        } else if c == '[' {
            self.square = self.square + 1;
        } else if c == ']' {
            if self.square > 0 {
                self.square = self.square - 1;
            }
        } else if c == '{' {
            self.curly = self.curly + 1;
        } else if c == '}' {
            if self.curly > 0 {
                self.curly = self.curly - 1;
            }
        }
    }

    fn at_top(&self) -> (r: bool)
        ensures
            r == at_top(self.state()),
    {
        self.quote.is_none() && self.square == 0 && self.curly == 0
    }
}

/// Moves the reader over an item predicate: up to the first whitespace
/// outside quotes and brackets.
pub fn read_item_predicate_token(reader: &mut StringReader)
    ensures
        final(reader).text() == old(reader).text(),
        final(reader).pos() == token_end(old(reader).text(), old(reader).pos(), scan_start()),
{
    let ghost text = reader.text();
    let ghost start = reader.pos();
    let _ = reader.cursor();
    proof {
        reader.lemma_text_len();
    }
    let mut scan = Scanner { square: 0, curly: 0, quote: None, escaped: false };
    loop
        invariant
            reader.text() == text,
            text.len() <= usize::MAX,
            0 <= start <= reader.pos() <= text.len(),
            scan.square <= reader.pos() - start,
            scan.curly <= reader.pos() - start,
            token_end(text, start, scan_start()) == token_end(text, reader.pos(), scan.state()),
        ensures
            reader.text() == text,
            token_end(text, start, scan_start()) == reader.pos(),
        decreases text.len() - reader.pos(),
    {
        let c = match reader.peek() {
            Some(c) => c,
            None => {
                break;
            },
        };
        if scan.at_top() && char_is_whitespace(c) {
            break;
        }
        reader.skip();
        scan.step(c);
    }
}

/// The positions of `delimiter` in `raw` outside quotes and brackets.
pub fn top_level_indices(raw: &Vec<char>, delimiter: char) -> (r: Vec<usize>)
    ensures
        r@.map_values(|i: usize| i as int) == delimiter_positions(raw@, 0, scan_start(), delimiter),
{
    let mut scan = Scanner { square: 0, curly: 0, quote: None, escaped: false };
    let mut out: Vec<usize> = Vec::new();
    let mut i: usize = 0;
    while i < raw.len()
        invariant
            i <= raw@.len(),
            scan.square <= i,
            scan.curly <= i,
            delimiter_positions(raw@, 0, scan_start(), delimiter) == out@.map_values(|k: usize| k as int)
                + delimiter_positions(raw@, i as int, scan.state(), delimiter),
        decreases raw@.len() - i,
    {
        let c = raw[i];
        let hit = !scan.escaped && !(c == '\\' && scan.quote.is_some()) && scan.at_top() && c != '\'' && c
            != '"' && c != '[' && c != ']' && c != '{' && c != '}' && c == delimiter;
        let ghost before = out@.map_values(|k: usize| k as int);
        if hit {
            out.push(i);
        }
        proof {
            if hit {
                assert(out@.map_values(|k: usize| k as int) =~= before.push(i as int));
            } else {
                assert(out@.map_values(|k: usize| k as int) =~= before);
            }
        }
        scan.step(c);
        i = i + 1;
    }
    out
}

/// The pieces of `raw` between top-level `delimiter`s.
#[verifier::rlimit(50)]
pub fn split_top_level(raw: &Vec<char>, delimiter: char) -> (r: Vec<Vec<char>>)
    ensures
        r@.map_values(|p: Vec<char>| p@) == pieces(raw@, delimiter_positions(raw@, 0, scan_start(), delimiter), 0),
{
    let indices = top_level_indices(raw, delimiter);
    let n = raw.len();
    let ghost positions = delimiter_positions(raw@, 0, scan_start(), delimiter);
    proof {
        lemma_delimiter_positions(raw@, 0, scan_start(), delimiter);
    }
    let mut values: Vec<Vec<char>> = Vec::new();
    let mut start: usize = 0;
    let mut k: usize = 0;
    assert(positions.skip(0) =~= positions);
    while k < indices.len()
        invariant
            k <= indices@.len(),
            n == raw@.len(),
            positions == indices@.map_values(|i: usize| i as int),
            forall|j: int| 0 <= j < positions.len() ==> 0 <= #[trigger] positions[j] < raw@.len(),
            forall|j: int| 0 <= j < positions.len() - 1 ==> #[trigger] positions[j] < positions[j + 1],
            k == 0 ==> start == 0,
            k > 0 ==> start == positions[k - 1] + 1,
            start <= raw@.len(),
            pieces(raw@, positions, 0) == values@.map_values(|p: Vec<char>| p@) + pieces(
                raw@,
                positions.skip(k as int),
                start as int,
            ),
        decreases indices@.len() - k,
    {
        let index = indices[k];
        assert(positions[k as int] == index);
        assert(index < raw@.len());
        if k > 0 {
            assert(positions[k - 1] < positions[k as int]);
        }
        let ghost rest = positions.skip(k as int);
        proof {
            assert(rest[0] == index);
            assert(rest.drop_first() =~= positions.skip(k + 1));
        }
        let piece = slice_of(raw, start, index);
        let ghost before = values@.map_values(|p: Vec<char>| p@);
        values.push(piece);
        assert(values@.map_values(|p: Vec<char>| p@) =~= before.push(raw@.subrange(start as int, index as int)));
        start = index + 1;
        k = k + 1;
    }
    assert(positions.skip(k as int) =~= Seq::<int>::empty());
    let last = slice_of(raw, start, raw.len());
    let ghost before = values@.map_values(|p: Vec<char>| p@);
    values.push(last);
    assert(values@.map_values(|p: Vec<char>| p@) =~= before.push(raw@.subrange(start as int, raw@.len() as int)));
    values
}

fn slice_of(v: &Vec<char>, from: usize, to: usize) -> (r: Vec<char>)
    requires
        from <= to <= v@.len(),
    ensures
        r@ == v@.subrange(from as int, to as int),
{
    let mut out: Vec<char> = Vec::new();
    let mut i = from;
    while i < to
        invariant
            from <= i <= to <= v@.len(),
            out@ == v@.subrange(from as int, i as int),
        decreases to - i,
    {
        out.push(v[i]);
        i = i + 1;
        assert(out@ =~= v@.subrange(from as int, i as int));
    }
    out
}

/// `raw` split at its first top-level `delimiter`, if it has one.
pub open spec fn split_once_at(s: Seq<char>, delimiter: char) -> (Seq<char>, Option<Seq<char>>) {
    let positions = delimiter_positions(s, 0, scan_start(), delimiter);
    if positions.len() == 0 {
        (s, None)
    } else {
        (s.subrange(0, positions[0]), Some(s.subrange(positions[0] + 1, s.len() as int)))
    }
}

/// Splits `raw` at its first top-level `delimiter`, if it has one.
pub fn split_once_top_level(raw: &Vec<char>, delimiter: char) -> (r: (Vec<char>, Option<Vec<char>>))
    ensures
        r.0@ == split_once_at(raw@, delimiter).0,
        match r.1 {
            Some(t) => split_once_at(raw@, delimiter).1 == Some(t@),
            None => split_once_at(raw@, delimiter).1 is None,
        },
{
    let indices = top_level_indices(raw, delimiter);
    proof {
        lemma_delimiter_positions(raw@, 0, scan_start(), delimiter);
    }
    if indices.len() == 0 {
        assert(raw@.subrange(0, raw@.len() as int) =~= raw@);
        (slice_of(raw, 0, raw.len()), None)
    } else {
        let n = raw.len();
        let index = indices[0];
        assert(delimiter_positions(raw@, 0, scan_start(), delimiter)[0] == index);
        (slice_of(raw, 0, index), Some(slice_of(raw, index + 1, raw.len())))
    }
}

/// The item part of a predicate and its component part: split at the
/// first `[`; the components are what lies between it and a final `]`.
pub open spec fn choice_and_components(s: Seq<char>) -> (Seq<char>, Option<Seq<char>>) {
    if exists|i: int| 0 <= i < s.len() && s[i] == '[' {
        let start = choose|i: int| 0 <= i < s.len() && s[i] == '[' && forall|j: int| 0 <= j < i ==> s[j] != '[';
        (s.subrange(0, start), if s.len() > 0 && s.last() == ']' {
            Some(s.subrange(start + 1, s.len() - 1))
        } else {
            None
        })
    } else {
        (s, None)
    }
}

pub fn split_choice_and_components(raw: &Vec<char>) -> (r: (Vec<char>, Option<Vec<char>>))
    ensures
        r.0@ == choice_and_components(raw@).0,
        match r.1 {
            Some(t) => choice_and_components(raw@).1 == Some(t@),
            None => choice_and_components(raw@).1 is None,
        },
{
    let mut i: usize = 0;
    while i < raw.len()
        invariant
            i <= raw@.len(),
            forall|j: int| 0 <= j < i ==> raw@[j] != '[',
        decreases raw@.len() - i,
    {
        if raw[i] == '[' {
            proof {
                let start = choose|k: int|
                    0 <= k < raw@.len() && raw@[k] == '[' && forall|j: int| 0 <= j < k ==> raw@[j] != '[';
                if start < i {
                    assert(raw@[start] != '[');
                }
                if start > i {
                    assert(raw@[i as int] == '[');
                }
                assert(start == i);
            }
            let choice = slice_of(raw, 0, i);
            let n = raw.len();
            let components = if raw[n - 1] == ']' {
                Some(slice_of(raw, i + 1, n - 1))
            } else {
                None
            };
            return (choice, components);
        }
        i = i + 1;
    }
    assert(raw@.subrange(0, raw@.len() as int) =~= raw@);
    (slice_of(raw, 0, raw.len()), None)
}

/// An identifier with `minecraft:` added when it names no namespace.
pub open spec fn normalized_identifier(raw: Seq<char>) -> Seq<char> {
    if raw.contains(':') {
        raw
    } else {
        "minecraft:"@ + raw
    }
}

pub fn normalize_identifier(raw: &Vec<char>) -> (r: String)
    ensures
        r@ == normalized_identifier(raw@),
{
    let mut i: usize = 0;
    let mut has_colon = false;
    while i < raw.len()
        invariant
            i <= raw@.len(),
            has_colon == exists|j: int| 0 <= j < i && raw@[j] == ':',
        decreases raw@.len() - i,
    {
        if raw[i] == ':' {
            has_colon = true;
        }
        i = i + 1;
    }
    let text = crate::text::string_of(raw.as_slice(), 0, raw.len());
    assert(raw@.subrange(0, raw@.len() as int) =~= raw@);
    if has_colon {
        text
    } else {
        let mut r = crate::text::owned("minecraft:");
        crate::text::push_str(&mut r, text.as_str());
        r
    }
}

// ---------------------------------------------------------------------------
// Predicates

/// Which items a predicate accepts: any, one item by id, or the items of a
/// tag.
#[derive(Debug, PartialEq, Eq)]
pub enum ItemChoice {
    Any,
    Item(u16),
    Tag(Vec<u16>),
}

/// A test on a data component: that the stack has it, or has it with the
/// given data (written as SNBT), or the opposite when negated.
#[derive(Debug, PartialEq, Eq)]
pub struct ComponentPredicate {
    pub component: String,
    pub expected: Option<String>,
    pub negated: bool,
}

pub struct ComponentView {
    pub component: Seq<char>,
    pub expected: Option<Seq<char>>,
    pub negated: bool,
}

impl View for ComponentPredicate {
    type V = ComponentView;

    open spec fn view(&self) -> ComponentView {
        ComponentView {
            component: self.component@,
            expected: match self.expected {
                Some(e) => Some(e@),
                None => None,
            },
            negated: self.negated,
        }
    }
}

pub open spec fn components_view(v: Seq<ComponentPredicate>) -> Seq<ComponentView> {
    v.map_values(|c: ComponentPredicate| c@)
}

/// An item predicate.
#[derive(Debug, PartialEq, Eq)]
pub struct ItemPredicate {
    pub item: ItemChoice,
    pub components: Vec<ComponentPredicate>,
}

/// The registered items by key with their ids, the item tags with the ids
/// they hold, and the names of the data components.
pub struct ItemRegistry {
    pub items: Vec<(String, u16)>,
    pub item_tags: Vec<(String, Vec<u16>)>,
    pub components: Vec<String>,
}

/// The first entry of `table` named `key`.
pub open spec fn lookup<T>(table: Seq<(String, T)>, key: Seq<char>) -> Option<T>
    decreases table.len(),
{
    if table.len() == 0 {
        None
    } else if table[0].0@ == key {
        Some(table[0].1)
    } else {
        lookup(table.drop_first(), key)
    }
}

fn find_item(table: &Vec<(String, u16)>, key: &String) -> (r: Option<u16>)
    ensures
        r == lookup(table@, key@),
{
    let mut i: usize = 0;
    assert(table@.skip(0) =~= table@);
    while i < table.len()
        invariant
            i <= table@.len(),
            lookup(table@, key@) == lookup(table@.skip(i as int), key@),
        decreases table@.len() - i,
    {
        let ghost rest = table@.skip(i as int);
        proof {
            assert(rest[0] == table@[i as int]);
            assert(rest.drop_first() =~= table@.skip(i + 1));
        }
        if crate::text::string_eq(&table[i].0, key) {
            return Some(table[i].1);
        }
        i = i + 1;
    }
    None
}

fn find_tag<'a>(table: &'a Vec<(String, Vec<u16>)>, key: &String) -> (r: Option<&'a Vec<u16>>)
    ensures
        match r {
            Some(ids) => lookup(table@, key@) == Some(*ids),
            None => lookup(table@, key@) is None,
        },
{
    let mut i: usize = 0;
    assert(table@.skip(0) =~= table@);
    while i < table.len()
        invariant
            i <= table@.len(),
            lookup(table@, key@) == lookup(table@.skip(i as int), key@),
        decreases table@.len() - i,
    {
        let ghost rest = table@.skip(i as int);
        proof {
            assert(rest[0] == table@[i as int]);
            assert(rest.drop_first() =~= table@.skip(i + 1));
        }
        if crate::text::string_eq(&table[i].0, key) {
            return Some(&table[i].1);
        }
        i = i + 1;
    }
    None
}

/// Why the component part of a predicate was rejected.
pub enum ComponentFailure {
    /// A component test is empty; holds the whole component part.
    Malformed(Seq<char>),
    /// No component has the name; holds it normalized.
    Unknown(Seq<char>),
}

/// One component test: `!` negates, `=` gives the expected data.
pub open spec fn component_of(piece: Seq<char>, known: Seq<Seq<char>>, whole: Seq<char>) -> Result<
    ComponentView,
    ComponentFailure,
> {
    let t = trim(piece);
    if t.len() == 0 {
        Err(ComponentFailure::Malformed(whole))
    } else {
        let negated = t[0] == '!';
        let rest = if negated {
            t.drop_first()
        } else {
            t
        };
        let (name, expected) = split_once_at(rest, '=');
        let normalized = normalized_identifier(trim(name));
        if !known.contains(normalized) {
            Err(ComponentFailure::Unknown(normalized))
        } else {
            Ok(
                ComponentView {
                    component: normalized,
                    expected: match expected {
                        Some(e) => Some(trim(e)),
                        None => None,
                    },
                    negated,
                },
            )
        }
    }
}

/// The component tests of a list of pieces; the first that fails is the
/// error.
pub open spec fn component_list_of(pieces: Seq<Seq<char>>, known: Seq<Seq<char>>, whole: Seq<char>) -> Result<
    Seq<ComponentView>,
    ComponentFailure,
>
    decreases pieces.len(),
{
    if pieces.len() == 0 {
        Ok(Seq::empty())
    } else {
        match component_of(pieces[0], known, whole) {
            Err(e) => Err(e),
            Ok(c) => match component_list_of(pieces.drop_first(), known, whole) {
                Err(e) => Err(e),
                Ok(rest) => Ok(seq![c] + rest),
            },
        }
    }
}

pub open spec fn failure_is(e: CommandSyntaxError, f: ComponentFailure) -> bool {
    match f {
        ComponentFailure::Malformed(t) => e matches CommandSyntaxError::MalformedItemComponent(m) && m@ == t,
        ComponentFailure::Unknown(n) => e matches CommandSyntaxError::UnknownItemComponent(m) && m@ == n,
    }
}

fn parse_component(piece: &Vec<char>, known: &Vec<String>, whole: &Vec<char>) -> (r: Result<
    ComponentPredicate,
    CommandSyntaxError,
>)
    ensures
        match component_of(piece@, names_view(known@), whole@) {
            Ok(c) => r matches Ok(p) && p@ == c,
            Err(f) => r matches Err(e) && failure_is(e, f),
        },
{
    let t = crate::text::chars_of(trimmed(piece.as_slice(), 0, piece.len()).as_str());
    assert(piece@.subrange(0, piece@.len() as int) =~= piece@);
    if t.len() == 0 {
        let w = crate::text::string_of(whole.as_slice(), 0, whole.len());
        assert(whole@.subrange(0, whole@.len() as int) =~= whole@);
        return Err(CommandSyntaxError::MalformedItemComponent(w));
    }
    let negated = t[0] == '!';
    let rest = if negated {
        slice_of(&t, 1, t.len())
    } else {
        slice_of(&t, 0, t.len())
    };
    proof {
        assert(t@.subrange(1, t@.len() as int) =~= t@.drop_first());
        assert(t@.subrange(0, t@.len() as int) =~= t@);
    }
    let (name, expected) = split_once_top_level(&rest, '=');
    let trimmed_name = crate::text::chars_of(trimmed(name.as_slice(), 0, name.len()).as_str());
    assert(name@.subrange(0, name@.len() as int) =~= name@);
    let normalized = normalize_identifier(&trimmed_name);
    if !crate::advancement::contains_name(known, &normalized) {
        return Err(CommandSyntaxError::UnknownItemComponent(normalized));
    }
    let expected = match expected {
        Some(e) => {
            assert(e@.subrange(0, e@.len() as int) =~= e@);
            Some(trimmed(e.as_slice(), 0, e.len()))
        },
        None => None,
    };
    Ok(ComponentPredicate { component: normalized, expected, negated })
}

/// Reads the component part of a predicate: tests separated by top-level
/// commas. The expected data of a test is kept as written.
pub fn parse_components(raw: &Vec<char>, known: &Vec<String>) -> (r: Result<
    Vec<ComponentPredicate>,
    CommandSyntaxError,
>)
    ensures
        match component_list_of(
            pieces(raw@, delimiter_positions(raw@, 0, scan_start(), ','), 0),
            names_view(known@),
            raw@,
        ) {
            Ok(cs) => r matches Ok(v) && components_view(v@) == cs,
            Err(f) => r matches Err(e) && failure_is(e, f),
        },
{
    let parts = split_top_level(raw, ',');
    let ghost ps = parts@.map_values(|p: Vec<char>| p@);
    let ghost kn = names_view(known@);
    let mut out: Vec<ComponentPredicate> = Vec::new();
    let mut i: usize = 0;
    assert(ps.skip(0) =~= ps);
    while i < parts.len()
        invariant
            i <= parts@.len(),
            ps == parts@.map_values(|p: Vec<char>| p@),
            ps == pieces(raw@, delimiter_positions(raw@, 0, scan_start(), ','), 0),
            kn == names_view(known@),
            component_list_of(ps, kn, raw@) == match component_list_of(ps.skip(i as int), kn, raw@) {
                Ok(rest) => Ok(components_view(out@) + rest),
                Err(f) => Err(f),
            },
        decreases parts@.len() - i,
    {
        let ghost rest = ps.skip(i as int);
        proof {
            assert(rest[0] == ps[i as int]);
            assert(rest.drop_first() =~= ps.skip(i + 1));
        }
        let c = match parse_component(&parts[i], known, raw) {
            Ok(c) => c,
            Err(e) => {
                return Err(e);
            },
        };
        let ghost before = components_view(out@);
        let ghost cv = c@;
        out.push(c);
        proof {
            assert(components_view(out@) =~= before.push(cv));
            match component_list_of(ps.skip(i + 1), kn, raw@) {
                Ok(r) => {
                    assert(components_view(out@) + r =~= before + (seq![cv] + r));
                },
                Err(f) => {},
            }
        }
        i = i + 1;
    }
    proof {
        assert(ps.skip(ps.len() as int) =~= Seq::<Seq<char>>::empty());
        assert(components_view(out@) + Seq::<ComponentView>::empty() =~= components_view(out@));
    }
    Ok(out)
}

pub struct ItemPredicateArgumentType;

impl ItemPredicateArgumentType {
    /// Reads an item predicate: `*`, `#` and an item tag, or an item, each
    /// identifier without namespace taken as `minecraft`, then optionally
    /// component tests in square brackets.
    pub fn parse(&self, reader: &mut StringReader, registry: &ItemRegistry) -> (r: Result<
        ItemPredicate,
        CommandSyntaxError,
    >)
        ensures
            final(reader).text() == old(reader).text(),
            final(reader).pos() == token_end(old(reader).text(), old(reader).pos(), scan_start()),
            ({
                let raw = old(reader).text().subrange(old(reader).pos(), final(reader).pos());
                let (choice, component_text) = choice_and_components(raw);
                let item_ok = if choice == seq!['*'] {
                    r matches Ok(p) ==> p.item == ItemChoice::Any
                } else if choice.len() > 0 && choice[0] == '#' {
                    let tag = normalized_identifier(choice.drop_first());
                    match lookup(registry.item_tags@, tag) {
                        Some(ids) => r matches Ok(p) ==> (p.item matches ItemChoice::Tag(t) && t@ == ids@),
                        None => r matches Err(CommandSyntaxError::UnknownItemTag(t)) && t@ == tag,
                    }
                } else {
                    let key = normalized_identifier(choice);
                    match lookup(registry.items@, key) {
                        Some(id) => r matches Ok(p) ==> p.item == ItemChoice::Item(id),
                        None => r matches Err(CommandSyntaxError::InvalidItem(t)) && t@ == key,
                    }
                };
                let item_found = choice == seq!['*'] || (if choice.len() > 0 && choice[0] == '#' {
                    lookup(registry.item_tags@, normalized_identifier(choice.drop_first())) is Some
                } else {
                    lookup(registry.items@, normalized_identifier(choice)) is Some
                });
                &&& item_ok
                &&& item_found ==> match component_text {
                    None => r matches Ok(p) && p.components@.len() == 0,
                    Some(text) => match component_list_of(
                        pieces(text, delimiter_positions(text, 0, scan_start(), ','), 0),
                        names_view(registry.components@),
                        text,
                    ) {
                        Ok(cs) => r matches Ok(p) && components_view(p.components@) == cs,
                        Err(f) => r matches Err(e) && failure_is(e, f),
                    },
                }
            }),
    {
        let start = reader.cursor();
        proof {
            lemma_token_end(reader.text(), reader.pos(), scan_start());
        }
        read_item_predicate_token(reader);
        let end = reader.cursor();
        let raw = crate::text::chars_of(reader.slice(start, end).as_str());
        let (choice, component_text) = split_choice_and_components(&raw);
        let item = if choice.len() == 1 && choice[0] == '*' {
            assert(choice@ =~= seq!['*']);
            ItemChoice::Any
        } else if choice.len() > 0 && choice[0] == '#' {
            assert(choice@ != seq!['*']);
            let tag = normalize_identifier(&slice_of(&choice, 1, choice.len()));
            assert(choice@.subrange(1, choice@.len() as int) =~= choice@.drop_first());
            match find_tag(&registry.item_tags, &tag) {
                Some(ids) => ItemChoice::Tag(ids.clone()),
                None => {
                    return Err(CommandSyntaxError::UnknownItemTag(tag));
                },
            }
        } else {
            proof {
                if choice@ == seq!['*'] {
                    assert(choice@.len() == 1 && choice@[0] == '*');
                }
            }
            let key = normalize_identifier(&choice);
            match find_item(&registry.items, &key) {
                Some(id) => ItemChoice::Item(id),
                None => {
                    return Err(CommandSyntaxError::InvalidItem(key));
                },
            }
        };
        let components = match component_text {
            Some(text) => match parse_components(&text, &registry.components) {
                Ok(cs) => cs,
                Err(e) => {
                    return Err(e);
                },
            },
            None => Vec::new(),
        };
        Ok(ItemPredicate { item, components })
    }
}

/// A stack as a predicate sees it: how many items, which item, and the
/// names of the data components it has.
pub struct PredicateStack {
    pub count: u8,
    pub item: u16,
    pub components: Vec<String>,
}

/// Whether a stack passes a component test, given whether its data for the
/// component equals the expected data.
pub open spec fn component_passes(c: ComponentView, present: bool, data_equal: bool) -> bool {
    let matches = match c.expected {
        None => present,
        Some(_) => present && data_equal,
    };
    matches != c.negated
}

pub open spec fn choice_accepts(item: ItemChoice, id: u16) -> bool {
    match item {
        ItemChoice::Any => true,
        ItemChoice::Item(i) => i == id,
        ItemChoice::Tag(ids) => ids@.contains(id),
    }
}

/// A tag chooses every item whose id its list holds, at whatever place in
/// the list, and no other item.
pub proof fn lemma_tag_choice(ids: Vec<u16>, id: u16)
    ensures
        forall|k: int| 0 <= k < ids@.len() ==> choice_accepts(ItemChoice::Tag(ids), #[trigger] ids@[k]),
        choice_accepts(ItemChoice::Tag(ids), id) <==> exists|k: int| 0 <= k < ids@.len() && #[trigger] ids@[k] == id,
{
    assert forall|k: int| 0 <= k < ids@.len() implies choice_accepts(ItemChoice::Tag(ids), #[trigger] ids@[k]) by {
        assert(ids@.contains(ids@[k]));
    }
}

/// A predicate without component tests accepts a stack exactly when the
/// stack is not empty and its item is chosen: for a tag, when the tag's
/// list holds the item's id; for `*`, always; for an item, when it is that
/// item.
pub proof fn lemma_predicate_without_components(p: ItemPredicate, stack: PredicateStack, data_equal: Seq<bool>)
    requires
        p.components@.len() == 0,
    ensures
        stack.count == 0 ==> !p.accepts(stack, data_equal),
        stack.count > 0 ==> match p.item {
            ItemChoice::Any => p.accepts(stack, data_equal),
            ItemChoice::Item(i) => p.accepts(stack, data_equal) <==> i == stack.item,
            ItemChoice::Tag(ids) => p.accepts(stack, data_equal) <==> exists|k: int|
                0 <= k < ids@.len() && #[trigger] ids@[k] == stack.item,
        },
{
    if let ItemChoice::Tag(ids) = p.item {
        lemma_tag_choice(ids, stack.item);
    }
}

impl ItemPredicate {
    /// Whether the predicate accepts the stack, given whether the stack's
    /// data equals the data of each component test; see [`Self::test`].
    pub open spec fn accepts(self, stack: PredicateStack, data_equal: Seq<bool>) -> bool {
        &&& stack.count > 0
        &&& choice_accepts(self.item, stack.item)
        &&& forall|i: int|
            0 <= i < self.components@.len() ==> component_passes(
                #[trigger] self.components@[i]@,
                names_view(stack.components@).contains(self.components@[i].component@),
                data_equal[i],
            )
    }

    /// Whether the predicate accepts the stack: it is not empty, its item is
    /// chosen, and it passes every component test. `data_equal[i]` tells
    /// whether the stack's data for the `i`-th tested component equals the
    /// data that test expects; it is read only for tests that give data.
    pub fn test(&self, stack: &PredicateStack, data_equal: &Vec<bool>) -> (r: bool)
        requires
            data_equal@.len() == self.components@.len(),
        ensures
            r == (stack.count > 0 && choice_accepts(self.item, stack.item) && forall|i: int|
                0 <= i < self.components@.len() ==> component_passes(
                    #[trigger] self.components@[i]@,
                    names_view(stack.components@).contains(self.components@[i].component@),
                    data_equal@[i],
                )),
            r == self.accepts(*stack, data_equal@),
    {
        if stack.count == 0 {
            return false;
        }
        let item_matches = match &self.item {
            ItemChoice::Any => true,
            ItemChoice::Item(id) => *id == stack.item,
            ItemChoice::Tag(ids) => {
                let mut found = false;
                let mut k: usize = 0;
                while k < ids.len()
                    invariant
                        k <= ids@.len(),
                        found == exists|j: int| 0 <= j < k && ids@[j] == stack.item,
                    decreases ids@.len() - k,
                {
                    if ids[k] == stack.item {
                        found = true;
                    }
                    k = k + 1;
                }
                proof {
                    if found {
                        let j = choose|j: int| 0 <= j < k && ids@[j] == stack.item;
                        assert(ids@.contains(stack.item));
                    }
                }
                found
            },
        };
        if !item_matches {
            return false;
        }
        let mut i: usize = 0;
        while i < self.components.len()
            invariant
                i <= self.components@.len(),
                data_equal@.len() == self.components@.len(),
                forall|j: int|
                    0 <= j < i ==> component_passes(
                        #[trigger] self.components@[j]@,
                        names_view(stack.components@).contains(self.components@[j].component@),
                        data_equal@[j],
                    ),
            decreases self.components@.len() - i,
        {
            let c = &self.components[i];
            let present = crate::advancement::contains_name(&stack.components, &c.component);
            let matches = match &c.expected {
                None => present,
                Some(_) => present && data_equal[i],
            };
            if matches == c.negated {
                assert(!component_passes(
                    self.components@[i as int]@,
                    names_view(stack.components@).contains(self.components@[i as int].component@),
                    data_equal@[i as int],
                ));
                return false;
            }
            i = i + 1;
        }
        true
    }
}

} // verus!
