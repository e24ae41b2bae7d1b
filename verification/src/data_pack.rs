//! Data packs: function files, the paths their files are found under, and
//! how function, entity type and biome tags are merged and resolved.
use vstd::prelude::*;
use vstd::utf8::{decode_utf8, valid_utf8};

use crate::identifier::{
    all_namespace_chars, all_path_chars, default_namespace, id_text, parse_identifier, Identifier,
    IdentifierView,
};
use crate::order::{chars_lt, lemma_chars_lt_total, lemma_chars_lt_transitive, str_before};
use crate::text::{
    char_is_whitespace, chars_of, contains_seq, contains_str, eq_ignore_ascii_case,
    eq_ignore_ascii_case_at, first_index, is_first_index, is_whitespace, lemma_first_index,
    split_once, split_once_str, starts_with, starts_with_at, strip_prefix, strip_prefix_str,
    strip_suffix, strip_suffix_str, string_of, first_where, lemma_first_where,
    lemma_first_where_none, lemma_first_where_push, lemma_first_where_some,
    lemma_first_where_update, str_eq, string_eq, owned, decimal_text, push_decimal, push_str,
};

verus! {

/// One command of a function, with the line it was written on.
#[derive(Debug, Clone, PartialEq, Eq)]
pub struct FunctionCommand {
    pub line: usize,
    pub command: String,
}

/// A function of a data pack: its commands in order.
#[derive(Debug, PartialEq, Eq)]
pub struct DataPackFunction {
    pub id: Identifier,
    pub commands: Vec<FunctionCommand>,
}

/// Why a function file was rejected.
#[derive(Debug, Clone, Copy, PartialEq, Eq, Structural)]
pub enum FunctionFileError {
    /// The file is not UTF-8 text.
    InvalidUtf8,
    /// A command on this line starts with `/`.
    LeadingSlash(usize),
    /// This line is a function macro line, starting with `$`.
    MacroLine(usize),
}

/// The lines of `s`, split at `\n`; a final `\n` ends the last line rather
/// than starting an empty one.
pub open spec fn lines_of(s: Seq<char>) -> Seq<Seq<char>>
    decreases s.len(),
{
    if s.len() == 0 {
        Seq::empty()
    } else {
        proof {
            crate::text::lemma_first_index_some(s, '\n');
        }
        match first_index(s, '\n') {
            Some(i) => seq![s.take(i)] + lines_of(s.skip(i + 1)),
            None => seq![s],
        }
    }
}

/// `s` without its leading whitespace.
pub open spec fn trim_start(s: Seq<char>) -> Seq<char>
    decreases s.len(),
{
    if s.len() > 0 && is_whitespace(s[0]) {
        trim_start(s.drop_first())
    } else {
        s
    }
}

/// `s` without its trailing whitespace.
pub open spec fn trim_end(s: Seq<char>) -> Seq<char>
    decreases s.len(),
{
    if s.len() > 0 && is_whitespace(s.last()) {
        trim_end(s.drop_last())
    } else {
        s
    }
}

/// `s` without leading and trailing whitespace.
pub open spec fn trim(s: Seq<char>) -> Seq<char> {
    trim_end(trim_start(s))
}

pub struct CommandView {
    pub line: int,
    pub command: Seq<char>,
}

/// The commands of a function whose lines are `lines`, each with its line
/// number counted from 1. Lines are trimmed; empty lines and lines starting
/// with `#` are skipped; the first line that starts with `/` or `$` rejects
/// the file.
pub open spec fn function_commands(lines: Seq<Seq<char>>) -> Result<Seq<CommandView>, FunctionFileError>
    decreases lines.len(),
{
    if lines.len() == 0 {
        Ok(Seq::empty())
    } else {
        match function_commands(lines.drop_last()) {
            Err(e) => Err(e),
            Ok(commands) => {
                let number = lines.len() as int;
                let line = trim(lines.last());
                if line.len() == 0 || line[0] == '#' {
                    Ok(commands)
                } else if line[0] == '/' {
                    Err(FunctionFileError::LeadingSlash(number as usize))
                } else if line[0] == '$' {
                    Err(FunctionFileError::MacroLine(number as usize))
                } else {
                    Ok(commands.push(CommandView { line: number, command: line }))
                }
            },
        }
    }
}

pub open spec fn commands_view(commands: Seq<FunctionCommand>) -> Seq<CommandView> {
    commands.map_values(|c: FunctionCommand| CommandView { line: c.line as int, command: c.command@ })
}

proof fn lemma_trim_start(s: Seq<char>, a: int)
    requires
        0 <= a <= s.len(),
        forall|k: int| 0 <= k < a ==> is_whitespace(#[trigger] s[k]),
        a == s.len() || !is_whitespace(s[a]),
    ensures
        trim_start(s) == s.skip(a),
    decreases a,
{
    if a > 0 {
        let t = s.drop_first();
        assert forall|k: int| 0 <= k < a - 1 implies is_whitespace(#[trigger] t[k]) by {
            assert(t[k] == s[k + 1]);
        }
        lemma_trim_start(t, a - 1);
        assert(t.skip(a - 1) =~= s.skip(a));
    } else {
        assert(s.skip(0) =~= s);
    }
}

proof fn lemma_trim_end(s: Seq<char>, b: int)
    requires
        0 <= b <= s.len(),
        forall|k: int| b <= k < s.len() ==> is_whitespace(#[trigger] s[k]),
        b == 0 || !is_whitespace(s[b - 1]),
    ensures
        trim_end(s) == s.take(b),
    decreases s.len() - b,
{
    if b < s.len() {
        let t = s.drop_last();
        assert forall|k: int| b <= k < t.len() implies is_whitespace(#[trigger] t[k]) by {
            assert(t[k] == s[k]);
        }
        lemma_trim_end(t, b);
        assert(t.take(b) =~= s.take(b));
    } else {
        assert(s.take(b) =~= s);
    }
}

/// The characters `v[from..to]` without leading and trailing whitespace.
pub(crate) fn trimmed(v: &[char], from: usize, to: usize) -> (r: String)
    requires
        from <= to <= v@.len(),
    ensures
        r@ == trim(v@.subrange(from as int, to as int)),
{
    let ghost s = v@.subrange(from as int, to as int);
    let mut a = from;
    while a < to && char_is_whitespace(v[a])
        invariant
            from <= a <= to <= v@.len(),
            forall|k: int| from <= k < a ==> is_whitespace(#[trigger] v@[k]),
        decreases to - a,
    {
        a = a + 1;
    }
    let mut b = to;
    while b > a && char_is_whitespace(v[b - 1])
        invariant
            from <= a <= b <= to <= v@.len(),
            forall|k: int| b <= k < to ==> is_whitespace(#[trigger] v@[k]),
        decreases b - a,
    {
        b = b - 1;
    }
    proof {
        assert forall|k: int| 0 <= k < a - from implies is_whitespace(#[trigger] s[k]) by {
            assert(s[k] == v@[from + k]);
        }
        lemma_trim_start(s, a - from);
        let t = s.skip(a - from);
        assert forall|k: int| b - a <= k < t.len() implies is_whitespace(#[trigger] t[k]) by {
            assert(t[k] == v@[a + k]);
        }
        if b > a {
            assert(t[b - a - 1] == v@[b - 1]);
        }
        lemma_trim_end(t, b - a);
        assert(t.take(b - a) =~= v@.subrange(a as int, b as int));
    }
    string_of(v, a, b)
}

/// Once a line rejects a function, the lines after it do not matter.
proof fn lemma_function_commands_error_stays(a: Seq<Seq<char>>, b: Seq<Seq<char>>)
    requires
        function_commands(a) is Err,
    ensures
        function_commands(a + b) == function_commands(a),
    decreases b.len(),
{
    if b.len() > 0 {
        lemma_function_commands_error_stays(a, b.drop_last());
        assert((a + b).drop_last() =~= a + b.drop_last());
    } else {
        assert(a + b =~= a);
    }
}

/// The first position at or after `from` that holds `c`.
fn find_char_from(v: &[char], from: usize, c: char) -> (r: Option<usize>)
    requires
        from <= v@.len(),
    ensures
        match r {
            Some(i) => from <= i < v@.len() && first_index(v@.skip(from as int), c) == Some(i - from),
            None => first_index(v@.skip(from as int), c) is None,
        },
{
    let ghost t = v@.skip(from as int);
    let mut i = from;
    while i < v.len()
        invariant
            from <= i <= v@.len(),
            t == v@.skip(from as int),
            forall|k: int| from <= k < i ==> v@[k] != c,
        decreases v@.len() - i,
    {
        if v[i] == c {
            proof {
                assert forall|k: int| 0 <= k < i - from implies t[k] != c by {
                    assert(t[k] == v@[from + k]);
                }
                assert(is_first_index(t, c, i - from));
                lemma_first_index(t, c, i - from);
            }
            return Some(i);
        }
        i = i + 1;
    }
    proof {
        assert forall|k: int| 0 <= k < t.len() implies t[k] != c by {
            assert(t[k] == v@[from + k]);
        }
        assert(!crate::text::has_char(t, c));
    }
    None
}

/// The function `id` whose file holds the text `text`; see
/// [`function_commands`].
pub fn parse_function_text(id: &Identifier, text: &str) -> (r: Result<DataPackFunction, FunctionFileError>)
    ensures
        match function_commands(lines_of(text@)) {
            Ok(commands) => r matches Ok(f) && f.id@ == id@ && commands_view(f.commands@) == commands,
            Err(e) => r == Err::<DataPackFunction, FunctionFileError>(e),
        },
{
    let v = chars_of(text);
    let mut commands: Vec<FunctionCommand> = Vec::new();
    let mut start: usize = 0;
    let mut number: usize = 0;
    let ghost mut done: Seq<Seq<char>> = Seq::empty();
    proof {
        assert(v@.skip(0) =~= v@);
        assert(commands_view(commands@) =~= Seq::<CommandView>::empty());
        assert(done + lines_of(v@) =~= lines_of(v@));
    }
    while start < v.len()
        invariant
            v@ == text@,
            start <= v@.len(),
            number == done.len(),
            number <= start,
            lines_of(text@) == done + lines_of(v@.skip(start as int)),
            function_commands(done) == Ok::<Seq<CommandView>, FunctionFileError>(commands_view(commands@)),
        decreases v@.len() - start,
    {
        let ghost rest = v@.skip(start as int);
        let end = match find_char_from(v.as_slice(), start, '\n') {
            Some(i) => i,
            None => v.len(),
        };
        let ghost line = v@.subrange(start as int, end as int);
        proof {
            match first_index(rest, '\n') {
                Some(i) => {
                    assert(rest.take(i) =~= line);
                    assert(rest.skip(i + 1) =~= v@.skip(end + 1));
                },
                None => {
                    assert(rest =~= line);
                },
            }
            assert(lines_of(text@) == done.push(line) + if end < v@.len() {
                lines_of(v@.skip(end + 1))
            } else {
                Seq::<Seq<char>>::empty()
            });
            assert(done.push(line).drop_last() =~= done);
        }
        let trimmed_line = trimmed(v.as_slice(), start, end);
        number = number + 1;
        let tv = chars_of(trimmed_line.as_str());
        if tv.len() == 0 || tv[0] == '#' {
        } else if tv[0] == '/' {
            proof {
                lemma_function_commands_error_stays(done.push(line), lines_of(text@).skip(done.len() as int + 1));
                assert(done.push(line) + lines_of(text@).skip(done.len() as int + 1) =~= lines_of(text@));
            }
            return Err(FunctionFileError::LeadingSlash(number));
        } else if tv[0] == '$' {
            proof {
                lemma_function_commands_error_stays(done.push(line), lines_of(text@).skip(done.len() as int + 1));
                assert(done.push(line) + lines_of(text@).skip(done.len() as int + 1) =~= lines_of(text@));
            }
            return Err(FunctionFileError::MacroLine(number));
        } else {
            let ghost before = commands@;
            commands.push(FunctionCommand { line: number, command: trimmed_line });
            proof {
                assert(commands_view(commands@) =~= commands_view(before).push(
                    CommandView { line: number as int, command: trim(line) },
                ));
            }
        }
        proof {
            done = done.push(line);
        }
        if end == v.len() {
            proof {
                assert(lines_of(text@) =~= done);
            }
            return Ok(DataPackFunction { id: id.copy(), commands });
        }
        start = end + 1;
    }
    proof {
        assert(v@.skip(start as int).len() == 0);
        assert(lines_of(v@.skip(start as int)) =~= Seq::<Seq<char>>::empty());
        assert(done + Seq::<Seq<char>>::empty() =~= done);
    }
    Ok(DataPackFunction { id: id.copy(), commands })
}

/// `std::str::from_utf8`: the text that `bytes` encode, when they are valid
/// UTF-8.
#[verifier::external_body]
fn text_from_utf8(bytes: &[u8]) -> (r: Option<String>)
    ensures
        r is Some <==> valid_utf8(bytes@),
        r matches Some(text) ==> text@ == decode_utf8(bytes@),
{
    match std::str::from_utf8(bytes) {
        Ok(text) => Some(text.to_owned()),
        Err(_) => None,
    }
}

/// The function `id` whose file holds `contents`, which must be UTF-8.
pub fn parse_function(id: &Identifier, contents: &[u8]) -> (r: Result<DataPackFunction, FunctionFileError>)
    ensures
        !valid_utf8(contents@) ==> r == Err::<DataPackFunction, FunctionFileError>(FunctionFileError::InvalidUtf8),
        valid_utf8(contents@) ==> match function_commands(lines_of(decode_utf8(contents@))) {
            Ok(commands) => r matches Ok(f) && f.id@ == id@ && commands_view(f.commands@) == commands,
            Err(e) => r == Err::<DataPackFunction, FunctionFileError>(e),
        },
{
    match text_from_utf8(contents) {
        Some(text) => parse_function_text(id, text.as_str()),
        None => Err(FunctionFileError::InvalidUtf8),
    }
}


/// The position of the last `c` in `s`, if any.
pub open spec fn last_index(s: Seq<char>, c: char) -> Option<int>
    decreases s.len(),
{
    if s.len() == 0 {
        None
    } else if s.last() == c {
        Some(s.len() - 1)
    } else {
        last_index(s.drop_last(), c)
    }
}

proof fn lemma_last_index(s: Seq<char>, c: char, i: int)
    requires
        -1 <= i < s.len(),
        forall|k: int| i < k < s.len() ==> s[k] != c,
        i >= 0 ==> s[i] == c,
    ensures
        last_index(s, c) == if i >= 0 {
            Some(i)
        } else {
            None::<int>
        },
    decreases s.len(),
{
    if s.len() > 0 && s.last() != c {
        lemma_last_index(s.drop_last(), c, i);
    }
}

fn find_last(v: &[char], from: usize, to: usize, c: char) -> (r: Option<usize>)
    requires
        from <= to <= v@.len(),
    ensures
        match r {
            Some(i) => from <= i < to && last_index(v@.subrange(from as int, to as int), c) == Some(i - from),
            None => last_index(v@.subrange(from as int, to as int), c) is None,
        },
{
    let ghost s = v@.subrange(from as int, to as int);
    let mut i = to;
    while i > from
        invariant
            from <= i <= to <= v@.len(),
            s == v@.subrange(from as int, to as int),
            forall|k: int| i <= k < to ==> v@[k] != c,
        decreases i - from,
    {
        if v[i - 1] == c {
            proof {
                assert forall|k: int| i - 1 - from < k < s.len() implies s[k] != c by {
                    assert(s[k] == v@[from + k]);
                }
                lemma_last_index(s, c, i - 1 - from);
            }
            return Some(i - 1);
        }
        i = i - 1;
    }
    proof {
        assert forall|k: int| -1 < k < s.len() implies s[k] != c by {
            assert(s[k] == v@[from + k]);
        }
        lemma_last_index(s, c, -1);
    }
    None
}

/// The last component of `path`.
pub open spec fn file_name(path: Seq<char>) -> Seq<char> {
    match last_index(path, '/') {
        Some(i) => path.skip(i + 1),
        None => path,
    }
}

/// The extension of `path`: what follows the last `.` of its last
/// component, unless that `.` begins the component.
pub open spec fn extension_of(path: Seq<char>) -> Option<Seq<char>> {
    let name = file_name(path);
    match last_index(name, '.') {
        Some(d) => if d > 0 {
            Some(name.skip(d + 1))
        } else {
            None
        },
        None => None,
    }
}

/// `path` has the extension `ext`, compared without ASCII case.
pub open spec fn has_extension(path: Seq<char>, ext: Seq<char>) -> bool {
    extension_of(path) matches Some(e) && eq_ignore_ascii_case(e, ext)
}

/// `path` with every `\` made a `/`.
pub open spec fn forward_slashes(path: Seq<char>) -> Seq<char> {
    path.map_values(|c: char| if c == '\\' { '/' } else { c })
}

/// Whether a file of a pack is one that data packs are read for: under
/// `data/`, a function file, or a JSON function, entity type or biome tag.
pub open spec fn relevant_data_file(path: Seq<char>) -> bool {
    let p = forward_slashes(path);
    &&& starts_with(p, "data/"@)
    &&& {
        ||| has_extension(p, "mcfunction"@)
        ||| (contains_seq(p, "/tags/function/"@) && has_extension(p, "json"@))
        ||| (contains_seq(p, "/tags/entity_type/"@) && has_extension(p, "json"@))
        ||| (contains_seq(p, "/tags/worldgen/biome/"@) && has_extension(p, "json"@))
    }
}

fn forward_slashes_exec(path: &str) -> (r: String)
    ensures
        r@ == forward_slashes(path@),
{
    let v = chars_of(path);
    let mut r = String::new();
    let mut i: usize = 0;
    while i < v.len()
        invariant
            i <= v@.len(),
            v@ == path@,
            r@ == forward_slashes(path@).take(i as int),
        decreases v@.len() - i,
    {
        let c = if v[i] == '\\' { '/' } else { v[i] };
        r.push(c);
        i = i + 1;
        assert(r@ =~= forward_slashes(path@).take(i as int));
    }
    assert(forward_slashes(path@).take(v@.len() as int) =~= forward_slashes(path@));
    r
}

fn has_extension_exec(path: &str, ext: &str) -> (r: bool)
    ensures
        r == has_extension(path@, ext@),
{
    let v = chars_of(path);
    let n = v.len();
    let start = match find_last(v.as_slice(), 0, n, '/') {
        Some(i) => i + 1,
        None => 0,
    };
    proof {
        assert(v@.subrange(0, n as int) =~= v@);
        assert(file_name(path@) =~= v@.subrange(start as int, n as int));
    }
    match find_last(v.as_slice(), start, n, '.') {
        Some(d) => {
            if d > start {
                proof {
                    let name = file_name(path@);
                    assert(name.skip(d - start + 1) =~= v@.subrange(d + 1, n as int));
                }
                eq_ignore_ascii_case_at(v.as_slice(), d + 1, n, ext)
            } else {
                false
            }
        },
        None => false,
    }
}

/// Whether a pack file is read; see [`relevant_data_file`].
pub fn is_relevant_data_file(path: &str) -> (r: bool)
    ensures
        r == relevant_data_file(path@),
{
    let p = forward_slashes_exec(path);
    let pv = chars_of(p.as_str());
    proof {
        assert(pv@.skip(0) =~= pv@);
    }
    if !starts_with_at(pv.as_slice(), 0, "data/") {
        return false;
    }
    let s = p.as_str();
    has_extension_exec(s, "mcfunction") || (contains_str(s, "/tags/function/") && has_extension_exec(s, "json"))
        || (contains_str(s, "/tags/entity_type/") && has_extension_exec(s, "json"))
        || (contains_str(s, "/tags/worldgen/biome/") && has_extension_exec(s, "json"))
}

/// The identifier of the resource at `path`:
/// `data/<namespace>/<directory>/<path><suffix>` names `<namespace>:<path>`.
pub open spec fn resource_id(path: Seq<char>, directory: Seq<char>, suffix: Seq<char>) -> Option<IdentifierView> {
    match strip_prefix(path, "data/"@) {
        None => None,
        Some(after_data) => match split_once(after_data, '/') {
            None => None,
            Some((namespace, rest)) => match strip_prefix(rest, directory) {
                None => None,
                Some(in_directory) => match strip_prefix(in_directory, seq!['/']) {
                    None => None,
                    Some(file) => match strip_suffix(file, suffix) {
                        None => None,
                        Some(id_path) => if all_namespace_chars(namespace) && all_path_chars(id_path) {
                            Some(IdentifierView { namespace, path: id_path })
                        } else {
                            None
                        },
                    },
                },
            },
        },
    }
}

/// The identifier of the resource at `path`; see [`resource_id`].
pub fn resource_id_from_path(path: &str, directory: &str, suffix: &str) -> (r: Option<Identifier>)
    ensures
        match r {
            Some(id) => resource_id(path@, directory@, suffix@) == Some(id@),
            None => resource_id(path@, directory@, suffix@) is None,
        },
{
    proof {
        reveal_strlit("/");
        assert("/"@ =~= seq!['/']);
    }
    let after_data = strip_prefix_str(path, "data/")?;
    let (namespace, rest) = split_once_str(after_data.as_str(), '/')?;
    let in_directory = strip_prefix_str(rest.as_str(), directory)?;
    let file = strip_prefix_str(in_directory.as_str(), "/")?;
    let id_path = strip_suffix_str(file.as_str(), suffix)?;
    Identifier::new(namespace, id_path)
}

/// The identifier of a tag of `registry` at `path`:
/// `data/<namespace>/tags/<registry>/<path>.json` names `<namespace>:<path>`.
pub open spec fn tag_id(path: Seq<char>, registry: Seq<char>) -> Option<IdentifierView> {
    resource_id(path, "tags/"@ + registry, ".json"@)
}

/// The identifier of a tag of `registry` at `path`; see [`tag_id`].
pub fn tag_id_from_path(path: &str, registry: &str) -> (r: Option<Identifier>)
    ensures
        match r {
            Some(id) => tag_id(path@, registry@) == Some(id@),
            None => tag_id(path@, registry@) is None,
        },
{
    let mut directory = crate::text::owned("tags/");
    crate::text::push_str(&mut directory, registry);
    resource_id_from_path(path, directory.as_str(), ".json")
}

/// The function at `path`, `data/<namespace>/function/<path>.mcfunction`.
pub fn function_id_from_path(path: &str) -> (r: Option<Identifier>)
    ensures
        match r {
            Some(id) => resource_id(path@, "function"@, ".mcfunction"@) == Some(id@),
            None => resource_id(path@, "function"@, ".mcfunction"@) is None,
        },
{
    resource_id_from_path(path, "function", ".mcfunction")
}

// ---------------------------------------------------------------------------
// Maps keyed by identifier

pub open spec fn key_is<V>(id: IdentifierView) -> spec_fn((IdentifierView, V)) -> bool {
    |e: (IdentifierView, V)| e.0 == id
}

/// The value stored under `id`.
pub open spec fn map_get<V>(m: Seq<(IdentifierView, V)>, id: IdentifierView) -> Option<V> {
    match first_where(m, key_is::<V>(id)) {
        Some(i) => Some(m[i].1),
        None => None,
    }
}

/// `m` with `v` stored under `id`: replaced in place, or appended.
pub open spec fn map_put<V>(m: Seq<(IdentifierView, V)>, id: IdentifierView, v: V) -> Seq<(IdentifierView, V)> {
    match first_where(m, key_is::<V>(id)) {
        Some(i) => m.update(i, (id, v)),
        None => m.push((id, v)),
    }
}

/// No key occurs twice.
pub open spec fn unique_keys<V>(m: Seq<(IdentifierView, V)>) -> bool {
    forall|i: int, j: int| 0 <= i < j < m.len() ==> m[i].0 != m[j].0
}

/// The keys of `m`.
pub open spec fn keys_of<V>(m: Seq<(IdentifierView, V)>) -> Seq<IdentifierView> {
    m.map_values(|e: (IdentifierView, V)| e.0)
}

pub proof fn lemma_map_put<V>(m: Seq<(IdentifierView, V)>, id: IdentifierView, v: V)
    requires
        unique_keys(m),
    ensures
        unique_keys(map_put(m, id, v)),
        map_get(map_put(m, id, v), id) == Some(v),
        forall|other: IdentifierView| other != id ==> #[trigger] map_get(map_put(m, id, v), other) == map_get(m, other),
        forall|k: IdentifierView| #[trigger] keys_of(map_put(m, id, v)).contains(k) <==> (keys_of(m).contains(k) || k == id),
{
    lemma_first_where_some(m, key_is::<V>(id));
    let r = map_put(m, id, v);
    match first_where(m, key_is::<V>(id)) {
        Some(i) => {
            assert forall|a: int, b: int| 0 <= a < b < r.len() implies r[a].0 != r[b].0 by {}
            lemma_first_where(r, key_is::<V>(id), i);
            assert forall|other: IdentifierView| other != id implies #[trigger] map_get(r, other) == map_get(m, other) by {
                lemma_first_where_update(m, key_is::<V>(other), i, (id, v));
            }
            assert forall|k: IdentifierView| #[trigger] keys_of(r).contains(k) <==> (keys_of(m).contains(k) || k == id) by {
                if keys_of(r).contains(k) {
                    let j = choose|j: int| 0 <= j < keys_of(r).len() && keys_of(r)[j] == k;
                    if j != i {
                        assert(keys_of(m)[j] == k);
                    }
                }
                if keys_of(m).contains(k) {
                    let j = choose|j: int| 0 <= j < keys_of(m).len() && keys_of(m)[j] == k;
                    assert(keys_of(r)[j] == k);
                }
                if k == id {
                    assert(keys_of(r)[i] == k);
                }
            }
        },
        None => {
            assert forall|a: int, b: int| 0 <= a < b < r.len() implies r[a].0 != r[b].0 by {
                if b == m.len() {
                    assert(!key_is::<V>(id)(m[a]));
                }
            }
            lemma_first_where_push(m, key_is::<V>(id), (id, v));
            assert forall|other: IdentifierView| other != id implies #[trigger] map_get(r, other) == map_get(m, other) by {
                lemma_first_where_push(m, key_is::<V>(other), (id, v));
            }
            assert forall|k: IdentifierView| #[trigger] keys_of(r).contains(k) <==> (keys_of(m).contains(k) || k == id) by {
                if keys_of(r).contains(k) {
                    let j = choose|j: int| 0 <= j < keys_of(r).len() && keys_of(r)[j] == k;
                    if j < m.len() {
                        assert(keys_of(m)[j] == k);
                    }
                }
                if keys_of(m).contains(k) {
                    let j = choose|j: int| 0 <= j < keys_of(m).len() && keys_of(m)[j] == k;
                    assert(keys_of(r)[j] == k);
                }
                if k == id {
                    assert(keys_of(r)[m.len() as int] == k);
                }
            }
        },
    }
}

/// A key that is found has its entry in the map.
pub proof fn lemma_map_get_key<V>(m: Seq<(IdentifierView, V)>, id: IdentifierView)
    ensures
        map_get(m, id) is Some <==> keys_of(m).contains(id),
{
    lemma_first_where_some(m, key_is::<V>(id));
    if keys_of(m).contains(id) {
        let j = choose|j: int| 0 <= j < keys_of(m).len() && keys_of(m)[j] == id;
        assert(key_is::<V>(id)(m[j]));
    }
    if let Some(i) = first_where(m, key_is::<V>(id)) {
        assert(keys_of(m)[i] == id);
    }
}

fn identifier_eq(a: &Identifier, b: &Identifier) -> (r: bool)
    ensures
        r == (a@ == b@),
{
    string_eq(&a.namespace, &b.namespace) && string_eq(&a.path, &b.path)
}

// ---------------------------------------------------------------------------
// Tag files

/// A value listed in a tag file: an id (`#` in front for a tag), on its own
/// or with whether it is required.
#[derive(Debug, Clone, PartialEq, Eq)]
pub enum TagFileValue {
    Id(String),
    Detailed { id: String, required: bool },
}

/// A tag file: whether it replaces what earlier packs listed, and its values.
#[derive(Debug, Clone, PartialEq, Eq)]
pub struct TagFile {
    pub replace: bool,
    pub values: Vec<TagFileValue>,
}

/// The id and the required flag of a tag value; a plain id is required.
pub open spec fn value_parts(v: TagFileValue) -> (Seq<char>, bool) {
    match v {
        TagFileValue::Id(id) => (id@, true),
        TagFileValue::Detailed { id, required } => (id@, required),
    }
}

/// The id and the required flag of a tag value; see [`value_parts`].
pub fn tag_value_parts(value: &TagFileValue) -> (r: (String, bool))
    ensures
        (r.0@, r.1) == value_parts(*value),
{
    match value {
        TagFileValue::Id(id) => (id.clone(), true),
        TagFileValue::Detailed { id, required } => (id.clone(), *required),
    }
}

/// An entry of a function tag.
#[derive(Debug, PartialEq, Eq)]
pub struct TagEntry {
    pub id: Identifier,
    pub is_tag: bool,
    pub required: bool,
}

pub struct TagEntryView {
    pub id: IdentifierView,
    pub is_tag: bool,
    pub required: bool,
}

impl View for TagEntry {
    type V = TagEntryView;

    open spec fn view(&self) -> TagEntryView {
        TagEntryView { id: self.id@, is_tag: self.is_tag, required: self.required }
    }
}

impl TagEntry {
    fn copy(&self) -> (r: TagEntry)
        ensures
            r@ == self@,
    {
        TagEntry { id: self.id.copy(), is_tag: self.is_tag, required: self.required }
    }
}

/// The function tag entries that tag values stand for; a value whose id
/// does not parse is skipped.
pub open spec fn function_tag_entries(values: Seq<TagFileValue>) -> Seq<TagEntryView>
    decreases values.len(),
{
    if values.len() == 0 {
        Seq::empty()
    } else {
        let rest = function_tag_entries(values.drop_last());
        let (raw, required) = value_parts(values.last());
        let (is_tag, id_text) = match strip_prefix(raw, seq!['#']) {
            Some(t) => (true, t),
            None => (false, raw),
        };
        match parse_identifier(id_text) {
            Some(id) => rest.push(TagEntryView { id, is_tag, required }),
            None => rest,
        }
    }
}

/// An entry of an entity type or biome tag: a registry element by its
/// numeric id, or another tag.
#[derive(Debug, PartialEq, Eq)]
pub enum ElementTagEntry {
    Element(u16),
    Tag { id: Identifier, required: bool },
}

pub enum ElementEntryView {
    Element(u16),
    Tag { id: IdentifierView, required: bool },
}

impl View for ElementTagEntry {
    type V = ElementEntryView;

    open spec fn view(&self) -> ElementEntryView {
        match self {
            ElementTagEntry::Element(n) => ElementEntryView::Element(*n),
            ElementTagEntry::Tag { id, required } => ElementEntryView::Tag { id: id@, required: *required },
        }
    }
}

impl ElementTagEntry {
    fn copy(&self) -> (r: ElementTagEntry)
        ensures
            r@ == self@,
    {
        match self {
            ElementTagEntry::Element(n) => ElementTagEntry::Element(*n),
            ElementTagEntry::Tag { id, required } => ElementTagEntry::Tag { id: id.copy(), required: *required },
        }
    }
}

/// The numeric id of the registry element named `name`, if any.
pub open spec fn registry_id(registry: Seq<(Seq<char>, u16)>, name: Seq<char>) -> Option<u16>
    decreases registry.len(),
{
    if registry.len() == 0 {
        None
    } else if registry[0].0 == name {
        Some(registry[0].1)
    } else {
        registry_id(registry.drop_first(), name)
    }
}

/// The entries that the values of an entity type or biome tag stand for:
/// `#` marks a tag; an element must be a `minecraft:` id that `registry`
/// names. Other values are skipped.
pub open spec fn element_tag_entries(values: Seq<TagFileValue>, registry: Seq<(Seq<char>, u16)>) -> Seq<ElementEntryView>
    decreases values.len(),
{
    if values.len() == 0 {
        Seq::empty()
    } else {
        let rest = element_tag_entries(values.drop_last(), registry);
        let (raw, required) = value_parts(values.last());
        match strip_prefix(raw, seq!['#']) {
            Some(t) => match parse_identifier(t) {
                Some(id) => rest.push(ElementEntryView::Tag { id, required }),
                None => rest,
            },
            None => match parse_identifier(raw) {
                Some(id) => if id.namespace == default_namespace() {
                    match registry_id(registry, id.path) {
                        Some(n) => rest.push(ElementEntryView::Element(n)),
                        None => rest,
                    }
                } else {
                    rest
                },
                None => rest,
            },
        }
    }
}

pub open spec fn registry_view(registry: Seq<(String, u16)>) -> Seq<(Seq<char>, u16)> {
    registry.map_values(|e: (String, u16)| (e.0@, e.1))
}

fn find_registry_id(registry: &Vec<(String, u16)>, name: &String) -> (r: Option<u16>)
    ensures
        r == registry_id(registry_view(registry@), name@),
{
    let ghost rv = registry_view(registry@);
    let mut i: usize = 0;
    proof {
        assert(rv.skip(0) =~= rv);
    }
    while i < registry.len()
        invariant
            i <= registry@.len(),
            rv == registry_view(registry@),
            registry_id(rv, name@) == registry_id(rv.skip(i as int), name@),
        decreases registry@.len() - i,
    {
        proof {
            assert(rv.skip(i as int).drop_first() =~= rv.skip(i + 1));
        }
        if string_eq(&registry[i].0, name) {
            return Some(registry[i].1);
        }
        i = i + 1;
    }
    None
}

pub open spec fn entries_view(entries: Seq<TagEntry>) -> Seq<TagEntryView> {
    entries.map_values(|e: TagEntry| e@)
}

pub open spec fn element_entries_view(entries: Seq<ElementTagEntry>) -> Seq<ElementEntryView> {
    entries.map_values(|e: ElementTagEntry| e@)
}

/// Appends the function tag entries of `values` to `entries`.
fn push_function_tag_entries(entries: &mut Vec<TagEntry>, values: &Vec<TagFileValue>)
    ensures
        entries_view(final(entries)@) == entries_view(old(entries)@) + function_tag_entries(values@),
{
    let ghost start = entries_view(entries@);
    let mut i: usize = 0;
    proof {
        assert(values@.take(0) =~= Seq::<TagFileValue>::empty());
        assert(entries_view(entries@) =~= start + function_tag_entries(values@.take(0)));
    }
    while i < values.len()
        invariant
            i <= values@.len(),
            entries_view(entries@) == start + function_tag_entries(values@.take(i as int)),
        decreases values@.len() - i,
    {
        proof {
            assert(values@.take(i + 1).drop_last() =~= values@.take(i as int));
            reveal_strlit("#");
            assert("#"@ =~= seq!['#']);
        }
        let (raw, required) = tag_value_parts(&values[i]);
        let (is_tag, id_text) = match strip_prefix_str(raw.as_str(), "#") {
            Some(t) => (true, t),
            None => (false, raw),
        };
        match Identifier::parse(id_text.as_str()) {
            Some(id) => {
                let ghost before = entries_view(entries@);
                entries.push(TagEntry { id, is_tag, required });
                proof {
                    assert(entries_view(entries@) =~= before.push(entries@.last()@));
                }
            },
            None => {},
        }
        i = i + 1;
    }
    proof {
        assert(values@.take(values@.len() as int) =~= values@);
    }
}

/// Appends the entity type or biome tag entries of `values` to `entries`.
fn push_element_tag_entries(entries: &mut Vec<ElementTagEntry>, values: &Vec<TagFileValue>, registry: &Vec<(String, u16)>)
    ensures
        element_entries_view(final(entries)@) == element_entries_view(old(entries)@) + element_tag_entries(
            values@,
            registry_view(registry@),
        ),
{
    let ghost start = element_entries_view(entries@);
    let ghost reg = registry_view(registry@);
    let mut i: usize = 0;
    proof {
        assert(values@.take(0) =~= Seq::<TagFileValue>::empty());
        assert(element_entries_view(entries@) =~= start + element_tag_entries(values@.take(0), reg));
    }
    while i < values.len()
        invariant
            i <= values@.len(),
            reg == registry_view(registry@),
            element_entries_view(entries@) == start + element_tag_entries(values@.take(i as int), reg),
        decreases values@.len() - i,
    {
        proof {
            assert(values@.take(i + 1).drop_last() =~= values@.take(i as int));
            reveal_strlit("#");
            assert("#"@ =~= seq!['#']);
            reveal_strlit("minecraft");
        }
        let ghost before = element_entries_view(entries@);
        let (raw, required) = tag_value_parts(&values[i]);
        match strip_prefix_str(raw.as_str(), "#") {
            Some(t) => {
                if let Some(id) = Identifier::parse(t.as_str()) {
                    entries.push(ElementTagEntry::Tag { id, required });
                    proof {
                        assert(element_entries_view(entries@) =~= before.push(entries@.last()@));
                    }
                }
            },
            None => {
                if let Some(id) = Identifier::parse(raw.as_str()) {
                    if str_eq(id.namespace.as_str(), "minecraft") {
                        if let Some(n) = find_registry_id(registry, &id.path) {
                            entries.push(ElementTagEntry::Element(n));
                            proof {
                                assert(element_entries_view(entries@) =~= before.push(entries@.last()@));
                            }
                        }
                    }
                }
            },
        }
        i = i + 1;
    }
    proof {
        assert(values@.take(values@.len() as int) =~= values@);
    }
}

// ---------------------------------------------------------------------------
// The manager

pub struct ManagerView {
    pub functions: Seq<(IdentifierView, Seq<CommandView>)>,
    pub tags: Seq<(IdentifierView, Seq<TagEntryView>)>,
    pub entity_type_tags: Seq<(IdentifierView, Seq<ElementEntryView>)>,
    pub biome_tags: Seq<(IdentifierView, Seq<ElementEntryView>)>,
    pub load_functions: Seq<IdentifierView>,
    pub tick_functions: Seq<IdentifierView>,
    pub loaded_packs: Seq<Seq<char>>,
    pub reported_command_errors: Seq<Seq<char>>,
}

pub open spec fn ids_view(ids: Seq<Identifier>) -> Seq<IdentifierView> {
    ids.map_values(|id: Identifier| id@)
}

pub open spec fn function_entry(f: DataPackFunction) -> (IdentifierView, Seq<CommandView>) {
    (f.id@, commands_view(f.commands@))
}

pub open spec fn tag_map_view(m: Seq<(Identifier, Vec<TagEntry>)>) -> Seq<(IdentifierView, Seq<TagEntryView>)> {
    m.map_values(|e: (Identifier, Vec<TagEntry>)| (e.0@, entries_view(e.1@)))
}

pub open spec fn element_map_view(m: Seq<(Identifier, Vec<ElementTagEntry>)>) -> Seq<(IdentifierView, Seq<ElementEntryView>)> {
    m.map_values(|e: (Identifier, Vec<ElementTagEntry>)| (e.0@, element_entries_view(e.1@)))
}

/// The functions, tags and load state of the data packs of a world.
pub struct DataPackManager {
    functions: Vec<DataPackFunction>,
    tags: Vec<(Identifier, Vec<TagEntry>)>,
    entity_type_tags: Vec<(Identifier, Vec<ElementTagEntry>)>,
    biome_tags: Vec<(Identifier, Vec<ElementTagEntry>)>,
    load_functions: Vec<Identifier>,
    tick_functions: Vec<Identifier>,
    loaded_packs: Vec<String>,
    reported_command_errors: Vec<String>,
}

impl View for DataPackManager {
    type V = ManagerView;

    closed spec fn view(&self) -> ManagerView {
        ManagerView {
            functions: self.functions@.map_values(|f: DataPackFunction| function_entry(f)),
            tags: tag_map_view(self.tags@),
            entity_type_tags: element_map_view(self.entity_type_tags@),
            biome_tags: element_map_view(self.biome_tags@),
            load_functions: ids_view(self.load_functions@),
            tick_functions: ids_view(self.tick_functions@),
            loaded_packs: self.loaded_packs@.map_values(|n: String| n@),
            reported_command_errors: self.reported_command_errors@.map_values(|m: String| m@),
        }
    }
}

/// The tag table after a tag file for `id`: its entries are appended to
/// the ones listed so far, or replace them when the file says so.
pub open spec fn merged_tag<E>(m: Seq<(IdentifierView, Seq<E>)>, id: IdentifierView, replace: bool, added: Seq<E>) -> Seq<(IdentifierView, Seq<E>)> {
    let before = if replace {
        Seq::empty()
    } else {
        match map_get(m, id) {
            Some(entries) => entries,
            None => Seq::empty(),
        }
    };
    map_put(m, id, before + added)
}

/// The tags that registry tag lists stand for: each list under its id when
/// the id parses, a later list replacing an earlier one with the same id.
pub open spec fn vanilla_tags(raw: Seq<(Seq<char>, Seq<u16>)>) -> Seq<(IdentifierView, Seq<ElementEntryView>)>
    decreases raw.len(),
{
    if raw.len() == 0 {
        Seq::empty()
    } else {
        let rest = vanilla_tags(raw.drop_last());
        match parse_identifier(raw.last().0) {
            Some(id) => map_put(rest, id, raw.last().1.map_values(|n: u16| ElementEntryView::Element(n))),
            None => rest,
        }
    }
}

pub open spec fn raw_tags_view(raw: Seq<(String, Vec<u16>)>) -> Seq<(Seq<char>, Seq<u16>)> {
    raw.map_values(|e: (String, Vec<u16>)| (e.0@, e.1@))
}

fn find_tag_index(m: &Vec<(Identifier, Vec<TagEntry>)>, id: &Identifier) -> (r: Option<usize>)
    ensures
        match r {
            Some(i) => i < m@.len() && first_where(tag_map_view(m@), key_is::<Seq<TagEntryView>>(id@)) == Some(i as int),
            None => first_where(tag_map_view(m@), key_is::<Seq<TagEntryView>>(id@)) is None,
        },
{
    let ghost v = tag_map_view(m@);
    let mut i: usize = 0;
    while i < m.len()
        invariant
            i <= m@.len(),
            v == tag_map_view(m@),
            forall|j: int| 0 <= j < i ==> !key_is::<Seq<TagEntryView>>(id@)(#[trigger] v[j]),
        decreases m@.len() - i,
    {
        if identifier_eq(&m[i].0, id) {
            proof {
                lemma_first_where(v, key_is::<Seq<TagEntryView>>(id@), i as int);
            }
            return Some(i);
        }
        i = i + 1;
    }
    proof {
        lemma_first_where_none(v, key_is::<Seq<TagEntryView>>(id@));
    }
    None
}

fn find_element_tag_index(m: &Vec<(Identifier, Vec<ElementTagEntry>)>, id: &Identifier) -> (r: Option<usize>)
    ensures
        match r {
            Some(i) => i < m@.len() && first_where(element_map_view(m@), key_is::<Seq<ElementEntryView>>(id@)) == Some(i as int),
            None => first_where(element_map_view(m@), key_is::<Seq<ElementEntryView>>(id@)) is None,
        },
{
    let ghost v = element_map_view(m@);
    let mut i: usize = 0;
    while i < m.len()
        invariant
            i <= m@.len(),
            v == element_map_view(m@),
            forall|j: int| 0 <= j < i ==> !key_is::<Seq<ElementEntryView>>(id@)(#[trigger] v[j]),
        decreases m@.len() - i,
    {
        if identifier_eq(&m[i].0, id) {
            proof {
                lemma_first_where(v, key_is::<Seq<ElementEntryView>>(id@), i as int);
            }
            return Some(i);
        }
        i = i + 1;
    }
    proof {
        lemma_first_where_none(v, key_is::<Seq<ElementEntryView>>(id@));
    }
    None
}

fn copy_tag_entries(entries: &Vec<TagEntry>) -> (r: Vec<TagEntry>)
    ensures
        entries_view(r@) == entries_view(entries@),
{
    let mut r: Vec<TagEntry> = Vec::new();
    let mut i: usize = 0;
    while i < entries.len()
        invariant
            i <= entries@.len(),
            entries_view(r@) == entries_view(entries@).take(i as int),
        decreases entries@.len() - i,
    {
        let ghost before = entries_view(r@);
        let e = entries[i].copy();
        r.push(e);
        assert(entries_view(r@) =~= before.push(entries@[i as int]@));
        i = i + 1;
        assert(entries_view(r@) =~= entries_view(entries@).take(i as int));
    }
    assert(entries_view(entries@).take(entries@.len() as int) =~= entries_view(entries@));
    r
}

fn copy_element_entries(entries: &Vec<ElementTagEntry>) -> (r: Vec<ElementTagEntry>)
    ensures
        element_entries_view(r@) == element_entries_view(entries@),
{
    let mut r: Vec<ElementTagEntry> = Vec::new();
    let mut i: usize = 0;
    while i < entries.len()
        invariant
            i <= entries@.len(),
            element_entries_view(r@) == element_entries_view(entries@).take(i as int),
        decreases entries@.len() - i,
    {
        let ghost before = element_entries_view(r@);
        let e = entries[i].copy();
        r.push(e);
        assert(element_entries_view(r@) =~= before.push(entries@[i as int]@));
        i = i + 1;
        assert(element_entries_view(r@) =~= element_entries_view(entries@).take(i as int));
    }
    assert(element_entries_view(entries@).take(entries@.len() as int) =~= element_entries_view(entries@));
    r
}

/// Merges a tag file for `tag_id` into an entity type or biome tag table.
fn merge_element_tag(
    m: &mut Vec<(Identifier, Vec<ElementTagEntry>)>,
    tag_id: &Identifier,
    tag: &TagFile,
    registry: &Vec<(String, u16)>,
)
    requires
        unique_keys(element_map_view(old(m)@)),
    ensures
        element_map_view(final(m)@) == merged_tag(
            element_map_view(old(m)@),
            tag_id@,
            tag.replace,
            element_tag_entries(tag.values@, registry_view(registry@)),
        ),
        unique_keys(element_map_view(final(m)@)),
{
    let ghost v = element_map_view(m@);
    let found = find_element_tag_index(m, tag_id);
    let mut entries: Vec<ElementTagEntry> = match found {
        Some(i) => if tag.replace {
            Vec::new()
        } else {
            copy_element_entries(&m[i].1)
        },
        None => Vec::new(),
    };
    proof {
        lemma_map_put(v, tag_id@, element_entries_view(entries@) + element_tag_entries(tag.values@, registry_view(registry@)));
        assert(element_entries_view(entries@) == if tag.replace {
            Seq::<ElementEntryView>::empty()
        } else {
            match map_get(v, tag_id@) {
                Some(e) => e,
                None => Seq::empty(),
            }
        }) by {
            if entries@.len() == 0 {
                assert(element_entries_view(entries@) =~= Seq::<ElementEntryView>::empty());
            }
        }
    }
    push_element_tag_entries(&mut entries, &tag.values, registry);
    let ghost ev = element_entries_view(entries@);
    match found {
        Some(i) => {
            m.set(i, (tag_id.copy(), entries));
            proof {
                assert(element_map_view(m@) =~= v.update(i as int, (tag_id@, ev)));
            }
        },
        None => {
            m.push((tag_id.copy(), entries));
            proof {
                assert(element_map_view(m@) =~= v.push((tag_id@, ev)));
            }
        },
    }
}

impl DataPackManager {
    #[verifier::type_invariant]
    spec fn keys_unique(self) -> bool {
        &&& unique_keys(self@.functions)
        &&& unique_keys(self@.tags)
        &&& unique_keys(self@.entity_type_tags)
        &&& unique_keys(self@.biome_tags)
    }

    /// A manager with no data packs: no functions or function tags, and the
    /// given registry tags (each id with the numeric ids of its elements).
    pub fn new(vanilla_entity_type_tags: &Vec<(String, Vec<u16>)>, vanilla_biome_tags: &Vec<(String, Vec<u16>)>) -> (r: DataPackManager)
        ensures
            r@ == initial_state(
                vanilla_tags(raw_tags_view(vanilla_entity_type_tags@)),
                vanilla_tags(raw_tags_view(vanilla_biome_tags@)),
            ),
    {
        let entity_type_tags = element_tags_of(vanilla_entity_type_tags);
        let biome_tags = element_tags_of(vanilla_biome_tags);
        let r = DataPackManager {
            functions: Vec::new(),
            tags: Vec::new(),
            entity_type_tags,
            biome_tags,
            load_functions: Vec::new(),
            tick_functions: Vec::new(),
            loaded_packs: Vec::new(),
            reported_command_errors: Vec::new(),
        };
        proof {
            assert(r@.functions =~= Seq::<(IdentifierView, Seq<CommandView>)>::empty());
            assert(r@.tags =~= Seq::<(IdentifierView, Seq<TagEntryView>)>::empty());
            assert(r@.load_functions =~= Seq::<IdentifierView>::empty());
            assert(r@.tick_functions =~= Seq::<IdentifierView>::empty());
            assert(r@.loaded_packs =~= Seq::<Seq<char>>::empty());
            assert(r@.reported_command_errors =~= Seq::<Seq<char>>::empty());
        }
        r
    }

    /// The function `id`.
    pub fn function(&self, id: &Identifier) -> (r: Option<&DataPackFunction>)
        ensures
            match map_get(self@.functions, id@) {
                Some(commands) => r matches Some(f) && f.id@ == id@ && commands_view(f.commands@) == commands,
                None => r is None,
            },
    {
        let mut i: usize = 0;
        while i < self.functions.len()
            invariant
                i <= self.functions@.len(),
                forall|j: int| 0 <= j < i ==> !key_is::<Seq<CommandView>>(id@)(#[trigger] self@.functions[j]),
            decreases self.functions@.len() - i,
        {
            if identifier_eq(&self.functions[i].id, id) {
                proof {
                    lemma_first_where(self@.functions, key_is::<Seq<CommandView>>(id@), i as int);
                }
                return Some(&self.functions[i]);
            }
            i = i + 1;
        }
        proof {
            lemma_first_where_none(self@.functions, key_is::<Seq<CommandView>>(id@));
        }
        None
    }

    /// Stores `function`, replacing a function with the same id.
    pub fn put_function(&mut self, function: DataPackFunction)
        ensures
            final(self)@ == (ManagerView {
                functions: map_put(old(self)@.functions, function.id@, commands_view(function.commands@)),
                ..old(self)@
            }),
    {
        proof {
            use_type_invariant(&*self);
            lemma_map_put(self@.functions, function.id@, commands_view(function.commands@));
        }
        let ghost v = self@;
        let ghost fe = function_entry(function);
        let mut i: usize = 0;
        let mut found: Option<usize> = None;
        while i < self.functions.len()
            invariant_except_break
                found is None,
            invariant
                i <= self.functions@.len(),
                v == self@,
                forall|j: int| 0 <= j < i ==> !key_is::<Seq<CommandView>>(function.id@)(#[trigger] v.functions[j]),
            ensures
                v == self@,
                match found {
                    Some(k) => k < self.functions@.len() && first_where(v.functions, key_is::<Seq<CommandView>>(function.id@)) == Some(k as int),
                    None => first_where(v.functions, key_is::<Seq<CommandView>>(function.id@)) is None,
                },
            decreases self.functions@.len() - i,
        {
            if identifier_eq(&self.functions[i].id, &function.id) {
                proof {
                    lemma_first_where(v.functions, key_is::<Seq<CommandView>>(function.id@), i as int);
                }
                found = Some(i);
                break;
            }
            i = i + 1;
        }
        if found.is_none() {
            proof {
                lemma_first_where_none(v.functions, key_is::<Seq<CommandView>>(function.id@));
            }
        }
        let mut all = Vec::new();
        std::mem::swap(&mut all, &mut self.functions);
        match found {
            Some(k) => {
                all.set(k, function);
                proof {
                    assert(all@.map_values(|f: DataPackFunction| function_entry(f)) =~= v.functions.update(k as int, fe));
                }
            },
            None => {
                all.push(function);
                proof {
                    assert(all@.map_values(|f: DataPackFunction| function_entry(f)) =~= v.functions.push(fe));
                }
            },
        }
        self.functions = all;
    }

    /// Merges a function tag file for `tag_id`: its entries are appended to
    /// those listed so far, or replace them when the file says so; values
    /// whose ids do not parse are skipped.
    pub fn apply_function_tag(&mut self, tag_id: &Identifier, tag: &TagFile)
        ensures
            final(self)@ == (ManagerView {
                tags: merged_tag(old(self)@.tags, tag_id@, tag.replace, function_tag_entries(tag.values@)),
                ..old(self)@
            }),
    {
        proof {
            use_type_invariant(&*self);
        }
        let ghost v = self@;
        let found = find_tag_index(&self.tags, tag_id);
        let mut entries: Vec<TagEntry> = match found {
            Some(i) => if tag.replace {
                Vec::new()
            } else {
                copy_tag_entries(&self.tags[i].1)
            },
            None => Vec::new(),
        };
        proof {
            lemma_map_put(v.tags, tag_id@, entries_view(entries@) + function_tag_entries(tag.values@));
            assert(entries_view(entries@) == if tag.replace {
                Seq::<TagEntryView>::empty()
            } else {
                match map_get(v.tags, tag_id@) {
                    Some(e) => e,
                    None => Seq::empty(),
                }
            }) by {
                if entries@.len() == 0 {
                    assert(entries_view(entries@) =~= Seq::<TagEntryView>::empty());
                }
            }
        }
        push_function_tag_entries(&mut entries, &tag.values);
        let ghost ev = entries_view(entries@);
        let mut all = Vec::new();
        std::mem::swap(&mut all, &mut self.tags);
        match found {
            Some(i) => {
                all.set(i, (tag_id.copy(), entries));
                proof {
                    assert(tag_map_view(all@) =~= v.tags.update(i as int, (tag_id@, ev)));
                }
            },
            None => {
                all.push((tag_id.copy(), entries));
                proof {
                    assert(tag_map_view(all@) =~= v.tags.push((tag_id@, ev)));
                }
            },
        }
        self.tags = all;
    }

    /// Merges an entity type tag file for `tag_id`, with `entity_types`
    /// naming the registered entity types.
    pub fn apply_entity_type_tag(&mut self, tag_id: &Identifier, tag: &TagFile, entity_types: &Vec<(String, u16)>)
        ensures
            final(self)@ == (ManagerView {
                entity_type_tags: merged_tag(
                    old(self)@.entity_type_tags,
                    tag_id@,
                    tag.replace,
                    element_tag_entries(tag.values@, registry_view(entity_types@)),
                ),
                ..old(self)@
            }),
    {
        proof {
            use_type_invariant(&*self);
        }
        let mut all = Vec::new();
        std::mem::swap(&mut all, &mut self.entity_type_tags);
        merge_element_tag(&mut all, tag_id, tag, entity_types);
        self.entity_type_tags = all;
    }

    /// Merges a biome tag file for `tag_id`, with `biomes` naming the
    /// registered biomes.
    pub fn apply_biome_tag(&mut self, tag_id: &Identifier, tag: &TagFile, biomes: &Vec<(String, u16)>)
        ensures
            final(self)@ == (ManagerView {
                biome_tags: merged_tag(
                    old(self)@.biome_tags,
                    tag_id@,
                    tag.replace,
                    element_tag_entries(tag.values@, registry_view(biomes@)),
                ),
                ..old(self)@
            }),
    {
        proof {
            use_type_invariant(&*self);
        }
        let mut all = Vec::new();
        std::mem::swap(&mut all, &mut self.biome_tags);
        merge_element_tag(&mut all, tag_id, tag, biomes);
        self.biome_tags = all;
    }

    /// The ids of the functions, in the order they were first stored.
    pub fn function_ids(&self) -> (r: Vec<Identifier>)
        ensures
            ids_view(r@) == keys_of(self@.functions),
    {
        let ghost v = self@;
        let mut ids: Vec<Identifier> = Vec::new();
        let mut i: usize = 0;
        while i < self.functions.len()
            invariant
                i <= self.functions@.len(),
                v == self@,
                ids_view(ids@) == keys_of(v.functions).take(i as int),
            decreases self.functions@.len() - i,
        {
            let ghost before = ids_view(ids@);
            ids.push(self.functions[i].id.copy());
            proof {
                assert(ids_view(ids@) =~= before.push(self.functions@[i as int].id@));
                assert(keys_of(v.functions).take(i + 1) =~= keys_of(v.functions).take(i as int).push(
                    self.functions@[i as int].id@,
                ));
            }
            i = i + 1;
        }
        proof {
            assert(keys_of(v.functions).take(self.functions@.len() as int) =~= keys_of(v.functions));
        }
        ids
    }

    /// The ids of the function tags, in the order they were first listed.
    pub fn tag_ids(&self) -> (r: Vec<Identifier>)
        ensures
            ids_view(r@) == keys_of(self@.tags),
    {
        let ghost v = self@;
        let mut ids: Vec<Identifier> = Vec::new();
        let mut i: usize = 0;
        while i < self.tags.len()
            invariant
                i <= self.tags@.len(),
                v == self@,
                ids_view(ids@) == keys_of(v.tags).take(i as int),
            decreases self.tags@.len() - i,
        {
            let ghost before = ids_view(ids@);
            ids.push(self.tags[i].0.copy());
            proof {
                assert(ids_view(ids@) =~= before.push(self.tags@[i as int].0@));
                assert(keys_of(v.tags).take(i + 1) =~= keys_of(v.tags).take(i as int).push(self.tags@[i as int].0@));
            }
            i = i + 1;
        }
        proof {
            assert(keys_of(v.tags).take(self.tags@.len() as int) =~= keys_of(v.tags));
        }
        ids
    }

    /// Whether a function tag `id` exists.
    pub fn has_tag(&self, id: &Identifier) -> (r: bool)
        ensures
            r == (map_get(self@.tags, id@) is Some),
    {
        find_tag_index(&self.tags, id).is_some()
    }

    /// The functions that the `minecraft:load` tag runs.
    pub fn load_functions(&self) -> (r: &Vec<Identifier>)
        ensures
            ids_view(r@) == self@.load_functions,
    {
        &self.load_functions
    }

    /// The functions that the `minecraft:tick` tag runs.
    pub fn tick_functions(&self) -> (r: &Vec<Identifier>)
        ensures
            ids_view(r@) == self@.tick_functions,
    {
        &self.tick_functions
    }

    /// The names of the packs that loaded, in the order they were applied.
    pub fn loaded_packs(&self) -> (r: &Vec<String>)
        ensures
            r@.map_values(|n: String| n@) == self@.loaded_packs,
    {
        &self.loaded_packs
    }
}

/// The registry tags that `raw` lists; see [`vanilla_tags`].
fn element_tags_of(raw: &Vec<(String, Vec<u16>)>) -> (r: Vec<(Identifier, Vec<ElementTagEntry>)>)
    ensures
        element_map_view(r@) == vanilla_tags(raw_tags_view(raw@)),
        unique_keys(element_map_view(r@)),
{
    let ghost rv = raw_tags_view(raw@);
    let mut m: Vec<(Identifier, Vec<ElementTagEntry>)> = Vec::new();
    let mut i: usize = 0;
    proof {
        assert(element_map_view(m@) =~= Seq::<(IdentifierView, Seq<ElementEntryView>)>::empty());
        assert(rv.take(0) =~= Seq::<(Seq<char>, Seq<u16>)>::empty());
    }
    while i < raw.len()
        invariant
            i <= raw@.len(),
            rv == raw_tags_view(raw@),
            element_map_view(m@) == vanilla_tags(rv.take(i as int)),
            unique_keys(element_map_view(m@)),
        decreases raw@.len() - i,
    {
        proof {
            assert(rv.take(i + 1).drop_last() =~= rv.take(i as int));
        }
        if let Some(id) = Identifier::parse(raw[i].0.as_str()) {
            let values = &raw[i].1;
            let mut entries: Vec<ElementTagEntry> = Vec::new();
            let mut k: usize = 0;
            while k < values.len()
                invariant
                    k <= values@.len(),
                    element_entries_view(entries@) == values@.take(k as int).map_values(|n: u16| ElementEntryView::Element(n)),
                decreases values@.len() - k,
            {
                let ghost before = element_entries_view(entries@);
                entries.push(ElementTagEntry::Element(values[k]));
                assert(element_entries_view(entries@) =~= before.push(ElementEntryView::Element(values@[k as int])));
                k = k + 1;
                assert(element_entries_view(entries@) =~= values@.take(k as int).map_values(|n: u16| ElementEntryView::Element(n)));
            }
            proof {
                assert(values@.take(values@.len() as int) =~= values@);
            }
            let tag = TagFile { replace: true, values: Vec::new() };
            let registry: Vec<(String, u16)> = Vec::new();
            let ghost before = element_map_view(m@);
            let ghost ev = element_entries_view(entries@);
            let found = find_element_tag_index(&m, &id);
            proof {
                lemma_map_put(before, id@, ev);
            }
            match found {
                Some(j) => {
                    m.set(j, (id, entries));
                    proof {
                        assert(element_map_view(m@) =~= before.update(j as int, (m@[j as int].0@, ev)));
                    }
                },
                None => {
                    m.push((id, entries));
                    proof {
                        assert(element_map_view(m@) =~= before.push((m@.last().0@, ev)));
                    }
                },
            }
        }
        i = i + 1;
    }
    proof {
        assert(rv.take(rv.len() as int) =~= rv);
    }
    m
}

// ---------------------------------------------------------------------------
// Resolving tags

/// How many of `keys` are not on `stack`.
pub open spec fn fresh_count(keys: Seq<IdentifierView>, stack: Seq<IdentifierView>) -> nat
    decreases keys.len(),
{
    if keys.len() == 0 {
        0
    } else {
        fresh_count(keys.drop_last(), stack) + if stack.contains(keys.last()) {
            0nat
        } else {
            1nat
        }
    }
}

/// Putting a key that is not on the stack onto it leaves fewer keys off it.
pub proof fn lemma_fresh_push(keys: Seq<IdentifierView>, stack: Seq<IdentifierView>, id: IdentifierView)
    ensures
        fresh_count(keys, stack.push(id)) <= fresh_count(keys, stack),
        keys.contains(id) && !stack.contains(id) ==> fresh_count(keys, stack.push(id)) < fresh_count(keys, stack),
    decreases keys.len(),
{
    if keys.len() > 0 {
        let rest = keys.drop_last();
        lemma_fresh_push(rest, stack, id);
        let k = keys.last();
        assert(stack.push(id).contains(k) <==> (stack.contains(k) || k == id)) by {
            if stack.push(id).contains(k) {
                let j = choose|j: int| 0 <= j < stack.push(id).len() && stack.push(id)[j] == k;
                if j < stack.len() {
                    assert(stack[j] == k);
                }
            }
            if stack.contains(k) {
                let j = choose|j: int| 0 <= j < stack.len() && stack[j] == k;
                assert(stack.push(id)[j] == k);
            }
            if k == id {
                assert(stack.push(id)[stack.len() as int] == k);
            }
        }
        if keys.contains(id) && !stack.contains(id) && k != id {
            let j = choose|j: int| 0 <= j < keys.len() && keys[j] == id;
            assert(rest[j] == id);
        }
    }
}

/// The functions that function tag `id` runs, in order: its entries in
/// turn, a function entry naming the function when it exists, a tag entry
/// expanded in place. A tag that is already being expanded (`stack`), or that
/// does not exist, adds nothing.
pub open spec fn resolved_tag(
    tags: Seq<(IdentifierView, Seq<TagEntryView>)>,
    functions: Seq<IdentifierView>,
    id: IdentifierView,
    stack: Seq<IdentifierView>,
) -> Seq<IdentifierView>
    decreases fresh_count(keys_of(tags), stack), 0nat, 0nat,
{
    if stack.contains(id) {
        Seq::empty()
    } else {
        match map_get(tags, id) {
            None => Seq::empty(),
            Some(entries) => {
                proof {
                    lemma_map_get_key(tags, id);
                    lemma_fresh_push(keys_of(tags), stack, id);
                }
                resolved_entries(tags, functions, entries, stack.push(id))
            },
        }
    }
}

/// The functions that the tag entries `entries` run; see [`resolved_tag`].
pub open spec fn resolved_entries(
    tags: Seq<(IdentifierView, Seq<TagEntryView>)>,
    functions: Seq<IdentifierView>,
    entries: Seq<TagEntryView>,
    stack: Seq<IdentifierView>,
) -> Seq<IdentifierView>
    decreases fresh_count(keys_of(tags), stack), 1nat, entries.len(),
{
    if entries.len() == 0 {
        Seq::empty()
    } else {
        let e = entries[0];
        let head = if e.is_tag {
            resolved_tag(tags, functions, e.id, stack)
        } else if functions.contains(e.id) {
            seq![e.id]
        } else {
            Seq::empty()
        };
        head + resolved_entries(tags, functions, entries.drop_first(), stack)
    }
}

/// Whether the registry tag `id` holds element `element`: directly, or
/// through a tag it lists. A tag that is already being searched (`stack`),
/// or that does not exist, holds nothing.
pub open spec fn tag_holds(
    tags: Seq<(IdentifierView, Seq<ElementEntryView>)>,
    id: IdentifierView,
    element: u16,
    stack: Seq<IdentifierView>,
) -> bool
    decreases fresh_count(keys_of(tags), stack), 0nat, 0nat,
{
    if stack.contains(id) {
        false
    } else {
        match map_get(tags, id) {
            None => false,
            Some(entries) => {
                proof {
                    lemma_map_get_key(tags, id);
                    lemma_fresh_push(keys_of(tags), stack, id);
                }
                entries_hold(tags, entries, element, stack.push(id))
            },
        }
    }
}

/// Whether one of `entries` holds `element`; see [`tag_holds`].
pub open spec fn entries_hold(
    tags: Seq<(IdentifierView, Seq<ElementEntryView>)>,
    entries: Seq<ElementEntryView>,
    element: u16,
    stack: Seq<IdentifierView>,
) -> bool
    decreases fresh_count(keys_of(tags), stack), 1nat, entries.len(),
{
    if entries.len() == 0 {
        false
    } else {
        let here = match entries[0] {
            ElementEntryView::Element(n) => n == element,
            ElementEntryView::Tag { id, required } => tag_holds(tags, id, element, stack),
        };
        here || entries_hold(tags, entries.drop_first(), element, stack)
    }
}

fn stack_contains(stack: &Vec<Identifier>, id: &Identifier) -> (r: bool)
    ensures
        r == ids_view(stack@).contains(id@),
{
    let mut i: usize = 0;
    while i < stack.len()
        invariant
            i <= stack@.len(),
            forall|j: int| 0 <= j < i ==> ids_view(stack@)[j] != id@,
        decreases stack@.len() - i,
    {
        if identifier_eq(&stack[i], id) {
            assert(ids_view(stack@)[i as int] == id@);
            return true;
        }
        i = i + 1;
    }
    false
}

impl DataPackManager {
    fn function_exists(&self, id: &Identifier) -> (r: bool)
        ensures
            r == keys_of(self@.functions).contains(id@),
    {
        proof {
            lemma_map_get_key(self@.functions, id@);
        }
        self.function(id).is_some()
    }

    #[verifier::spinoff_prover]
    #[verifier::rlimit(50)]
    fn resolve_tag_inner(&self, tag_id: &Identifier, stack: &mut Vec<Identifier>, resolved: &mut Vec<Identifier>)
        ensures
            ids_view(final(stack)@) == ids_view(old(stack)@),
            ids_view(final(resolved)@) == ids_view(old(resolved)@) + resolved_tag(
                self@.tags,
                keys_of(self@.functions),
                tag_id@,
                ids_view(old(stack)@),
            ),
        decreases fresh_count(keys_of(self@.tags), ids_view(stack@)), 0nat, 0nat,
    {
        let ghost s0 = ids_view(stack@);
        let ghost r0 = ids_view(resolved@);
        let ghost tags = self@.tags;
        let ghost fns = keys_of(self@.functions);
        if stack_contains(stack, tag_id) {
            assert(ids_view(resolved@) =~= r0 + Seq::<IdentifierView>::empty());
            return;
        }
        let index = match find_tag_index(&self.tags, tag_id) {
            Some(i) => i,
            None => {
                assert(ids_view(resolved@) =~= r0 + Seq::<IdentifierView>::empty());
                return;
            },
        };
        proof {
            lemma_map_get_key(tags, tag_id@);
            lemma_fresh_push(keys_of(tags), s0, tag_id@);
        }
        stack.push(tag_id.copy());
        let ghost st = ids_view(stack@);
        proof {
            assert(st =~= s0.push(tag_id@));
        }
        let entries = &self.tags[index].1;
        let ghost ev = entries_view(entries@);
        proof {
            assert(map_get(tags, tag_id@) == Some(ev));
            assert(ev.skip(0) =~= ev);
            assert(ids_view(resolved@) =~= r0 + Seq::<IdentifierView>::empty());
        }
        let mut k: usize = 0;
        while k < entries.len()
            invariant
                k <= entries@.len(),
                ev == entries_view(entries@),
                tags == self@.tags,
                fns == keys_of(self@.functions),
                ids_view(stack@) == st,
                st == s0.push(tag_id@),
                s0 == ids_view(old(stack)@),
                fresh_count(keys_of(tags), st) < fresh_count(keys_of(tags), s0),
                resolved_entries(tags, fns, ev, st) == ids_view(resolved@).skip(r0.len() as int) + resolved_entries(
                    tags,
                    fns,
                    ev.skip(k as int),
                    st,
                ),
                ids_view(resolved@).take(r0.len() as int) == r0,
                r0.len() <= ids_view(resolved@).len(),
            decreases entries@.len() - k,
        {
            let e = &entries[k];
            let ghost before = ids_view(resolved@);
            proof {
                assert(ev.skip(k as int)[0] == e@);
                assert(ev.skip(k as int).drop_first() =~= ev.skip(k + 1));
            }
            if e.is_tag {
                self.resolve_tag_inner(&e.id, stack, resolved);
            } else if self.function_exists(&e.id) {
                resolved.push(e.id.copy());
                proof {
                    assert(ids_view(resolved@) =~= before + seq![e.id@]);
                }
            } else {
                proof {
                    assert(ids_view(resolved@) =~= before + Seq::<IdentifierView>::empty());
                }
            }
            proof {
                let now = ids_view(resolved@);
                let added = now.skip(before.len() as int);
                assert(now =~= before + added);
                assert(now.take(r0.len() as int) =~= before.take(r0.len() as int));
                assert(now.skip(r0.len() as int) =~= before.skip(r0.len() as int) + added);
            }
            k = k + 1;
        }
        proof {
            assert(ev.skip(k as int).len() == 0);
            let now = ids_view(resolved@);
            assert(now =~= now.take(r0.len() as int) + now.skip(r0.len() as int));
        }
        let ghost full = stack@;
        proof {
            assert(full.len() == s0.len() + 1);
        }
        stack.pop();
        proof {
            assert(stack@ =~= full.drop_last());
            assert(ids_view(stack@) =~= ids_view(full).drop_last());
            assert(ids_view(stack@) =~= s0);
        }
    }

    /// The functions that function tag `id` runs; see [`resolved_tag`].
    pub fn resolve_tag(&self, id: &Identifier) -> (r: Vec<Identifier>)
        ensures
            ids_view(r@) == resolved_tag(self@.tags, keys_of(self@.functions), id@, Seq::empty()),
    {
        let mut stack: Vec<Identifier> = Vec::new();
        let mut resolved: Vec<Identifier> = Vec::new();
        proof {
            assert(ids_view(stack@) =~= Seq::<IdentifierView>::empty());
        }
        self.resolve_tag_inner(id, &mut stack, &mut resolved);
        proof {
            assert(ids_view(resolved@) =~= Seq::<IdentifierView>::empty() + resolved_tag(
                self@.tags,
                keys_of(self@.functions),
                id@,
                Seq::empty(),
            ));
        }
        resolved
    }
}

fn element_tag_contains(
    tags: &Vec<(Identifier, Vec<ElementTagEntry>)>,
    tag_id: &Identifier,
    element: u16,
    stack: &mut Vec<Identifier>,
) -> (r: bool)
    ensures
        ids_view(final(stack)@) == ids_view(old(stack)@),
        r == tag_holds(element_map_view(tags@), tag_id@, element, ids_view(old(stack)@)),
    decreases fresh_count(keys_of(element_map_view(tags@)), ids_view(stack@)), 0nat, 0nat,
{
    let ghost s0 = ids_view(stack@);
    let ghost tv = element_map_view(tags@);
    if stack_contains(stack, tag_id) {
        return false;
    }
    let index = match find_element_tag_index(tags, tag_id) {
        Some(i) => i,
        None => {
            return false;
        },
    };
    proof {
        lemma_map_get_key(tv, tag_id@);
        lemma_fresh_push(keys_of(tv), s0, tag_id@);
    }
    stack.push(tag_id.copy());
    let ghost st = ids_view(stack@);
    proof {
        assert(st =~= s0.push(tag_id@));
    }
    let entries = &tags[index].1;
    let ghost ev = element_entries_view(entries@);
    proof {
        assert(map_get(tv, tag_id@) == Some(ev));
        assert(ev.skip(0) =~= ev);
    }
    let mut found = false;
    let mut k: usize = 0;
    while k < entries.len()
        invariant_except_break
            !found,
            entries_hold(tv, ev, element, st) == entries_hold(tv, ev.skip(k as int), element, st),
        invariant
            k <= entries@.len(),
            ev == element_entries_view(entries@),
            tv == element_map_view(tags@),
            ids_view(stack@) == st,
            st == s0.push(tag_id@),
            s0 == ids_view(old(stack)@),
            fresh_count(keys_of(tv), st) < fresh_count(keys_of(tv), s0),
        ensures
            ids_view(stack@) == st,
            found == entries_hold(tv, ev, element, st),
        decreases entries@.len() - k,
    {
        proof {
            assert(ev.skip(k as int)[0] == entries@[k as int]@);
            assert(ev.skip(k as int).drop_first() =~= ev.skip(k + 1));
        }
        let here = match &entries[k] {
            ElementTagEntry::Element(n) => *n == element,
            ElementTagEntry::Tag { id, required } => element_tag_contains(tags, id, element, stack),
        };
        if here {
            found = true;
            break;
        }
        k = k + 1;
    }
    let ghost full = stack@;
    proof {
        assert(full.len() == s0.len() + 1);
    }
    stack.pop();
    proof {
        assert(stack@ =~= full.drop_last());
        assert(ids_view(stack@) =~= ids_view(full).drop_last());
        assert(ids_view(stack@) =~= s0);
    }
    found
}

impl DataPackManager {
    /// Whether entity type `entity_type` (by numeric id) belongs to entity
    /// type tag `tag`; see [`tag_holds`].
    pub fn entity_type_is_tagged(&self, tag: &Identifier, entity_type: u16) -> (r: bool)
        ensures
            r == tag_holds(self@.entity_type_tags, tag@, entity_type, Seq::empty()),
    {
        let mut stack: Vec<Identifier> = Vec::new();
        proof {
            assert(ids_view(stack@) =~= Seq::<IdentifierView>::empty());
        }
        element_tag_contains(&self.entity_type_tags, tag, entity_type, &mut stack)
    }

    /// Whether biome `biome` (by numeric id) belongs to biome tag `tag`; see
    /// [`tag_holds`].
    pub fn biome_is_tagged(&self, tag: &Identifier, biome: u8) -> (r: bool)
        ensures
            r == tag_holds(self@.biome_tags, tag@, biome as u16, Seq::empty()),
    {
        let mut stack: Vec<Identifier> = Vec::new();
        proof {
            assert(ids_view(stack@) =~= Seq::<IdentifierView>::empty());
        }
        element_tag_contains(&self.biome_tags, tag, biome as u16, &mut stack)
    }
}

/// The required tag references among `entries` of tag `tag` that name no
/// tag of `tags`: the pair of `tag` and the missing reference, in order.
pub open spec fn missing_in(
    tags: Seq<(IdentifierView, Seq<ElementEntryView>)>,
    tag: IdentifierView,
    entries: Seq<ElementEntryView>,
) -> Seq<(IdentifierView, IdentifierView)>
    decreases entries.len(),
{
    if entries.len() == 0 {
        Seq::empty()
    } else {
        let here = match entries[0] {
            ElementEntryView::Tag { id, required } => if required && map_get(tags, id) is None {
                seq![(tag, id)]
            } else {
                Seq::empty()
            },
            ElementEntryView::Element(_) => Seq::empty(),
        };
        here + missing_in(tags, tag, entries.drop_first())
    }
}

/// The required tag references of the tags `from` that name no tag of
/// `tags`, tag by tag.
pub open spec fn missing_required(
    tags: Seq<(IdentifierView, Seq<ElementEntryView>)>,
    from: Seq<(IdentifierView, Seq<ElementEntryView>)>,
) -> Seq<(IdentifierView, IdentifierView)>
    decreases from.len(),
{
    if from.len() == 0 {
        Seq::empty()
    } else {
        missing_in(tags, from[0].0, from[0].1) + missing_required(tags, from.drop_first())
    }
}

pub open spec fn id_pairs_view(v: Seq<(Identifier, Identifier)>) -> Seq<(IdentifierView, IdentifierView)> {
    v.map_values(|p: (Identifier, Identifier)| (p.0@, p.1@))
}

fn missing_required_tags(tags: &Vec<(Identifier, Vec<ElementTagEntry>)>) -> (r: Vec<(Identifier, Identifier)>)
    ensures
        id_pairs_view(r@) == missing_required(element_map_view(tags@), element_map_view(tags@)),
{
    let ghost all = element_map_view(tags@);
    let mut out: Vec<(Identifier, Identifier)> = Vec::new();
    let mut i: usize = 0;
    assert(all.skip(0) =~= all);
    while i < tags.len()
        invariant
            i <= tags@.len(),
            all == element_map_view(tags@),
            missing_required(all, all) == id_pairs_view(out@) + missing_required(all, all.skip(i as int)),
        decreases tags@.len() - i,
    {
        let ghost rest = all.skip(i as int);
        let ghost tag_view = all[i as int].0;
        let ghost entries_all = all[i as int].1;
        proof {
            assert(rest[0] == all[i as int]);
            assert(rest.drop_first() =~= all.skip(i + 1));
            assert(tag_view == tags@[i as int].0@);
            assert(entries_all == element_entries_view(tags@[i as int].1@));
        }
        let tag = &tags[i].0;
        let entries = &tags[i].1;
        let ghost out_before = id_pairs_view(out@);
        let mut j: usize = 0;
        assert(entries_all.skip(0) =~= entries_all);
        while j < entries.len()
            invariant
                j <= entries@.len(),
                all == element_map_view(tags@),
                entries_all == element_entries_view(entries@),
                entries_all.len() == entries@.len(),
                tag_view == tag@,
                out_before + missing_in(all, tag_view, entries_all) == id_pairs_view(out@) + missing_in(
                    all,
                    tag_view,
                    entries_all.skip(j as int),
                ),
            decreases entries@.len() - j,
        {
            let ghost erest = entries_all.skip(j as int);
            proof {
                assert(erest[0] == entries_all[j as int]);
                assert(erest.drop_first() =~= entries_all.skip(j + 1));
                assert(entries_all[j as int] == entries@[j as int]@);
            }
            let ghost before = id_pairs_view(out@);
            match &entries[j] {
                ElementTagEntry::Tag { id, required } => {
                    if *required && find_element_tag_index(tags, id).is_none() {
                        out.push((tag.copy(), id.copy()));
                        proof {
                            assert(id_pairs_view(out@) =~= before.push((tag_view, id@)));
                            assert(before + (seq![(tag_view, id@)] + missing_in(all, tag_view, entries_all.skip(j + 1)))
                                =~= id_pairs_view(out@) + missing_in(all, tag_view, entries_all.skip(j + 1)));
                        }
                    } else {
                        proof {
                            assert(Seq::<(IdentifierView, IdentifierView)>::empty() + missing_in(all, tag_view, entries_all.skip(j + 1))
                                =~= missing_in(all, tag_view, entries_all.skip(j + 1)));
                        }
                    }
                },
                ElementTagEntry::Element(_) => {
                    proof {
                        assert(Seq::<(IdentifierView, IdentifierView)>::empty() + missing_in(all, tag_view, entries_all.skip(j + 1))
                            =~= missing_in(all, tag_view, entries_all.skip(j + 1)));
                    }
                },
            }
            j = j + 1;
        }
        proof {
            assert(entries_all.skip(entries@.len() as int) =~= Seq::<ElementEntryView>::empty());
            assert(id_pairs_view(out@) + Seq::<(IdentifierView, IdentifierView)>::empty() =~= id_pairs_view(out@));
            assert(missing_required(all, rest) == missing_in(all, tag_view, entries_all) + missing_required(all, all.skip(i + 1)));
            assert(out_before + (missing_in(all, tag_view, entries_all) + missing_required(all, all.skip(i + 1))) =~= (out_before
                + missing_in(all, tag_view, entries_all)) + missing_required(all, all.skip(i + 1)));
        }
        i = i + 1;
    }
    proof {
        assert(all.skip(tags@.len() as int) =~= Seq::<(IdentifierView, Seq<ElementEntryView>)>::empty());
        assert(id_pairs_view(out@) + Seq::<(IdentifierView, IdentifierView)>::empty() =~= id_pairs_view(out@));
    }
    out
}

impl DataPackManager {
    /// What validating the entity type tags finds: each reference to a
    /// required tag that does not exist, with the tag that holds it.
    pub fn validate_entity_type_tags(&self) -> (r: Vec<(Identifier, Identifier)>)
        ensures
            id_pairs_view(r@) == missing_required(self@.entity_type_tags, self@.entity_type_tags),
    {
        missing_required_tags(&self.entity_type_tags)
    }

    /// What validating the biome tags finds: each reference to a required
    /// tag that does not exist, with the tag that holds it.
    pub fn validate_biome_tags(&self) -> (r: Vec<(Identifier, Identifier)>)
        ensures
            id_pairs_view(r@) == missing_required(self@.biome_tags, self@.biome_tags),
    {
        missing_required_tags(&self.biome_tags)
    }
}

// ---------------------------------------------------------------------------
// Packs

/// A file of a data pack: its path inside the pack, its bytes, and, for a
/// tag file whose JSON parsed, the tag it holds.
#[derive(Debug, Clone, PartialEq, Eq)]
pub struct PackFile {
    pub path: String,
    pub contents: Vec<u8>,
    pub tag: Option<TagFile>,
}

/// A data pack that was read: its name and its relevant files.
#[derive(Debug, Clone, PartialEq, Eq)]
pub struct LoadedPack {
    pub name: String,
    pub files: Vec<PackFile>,
}

/// The registered entity types and biomes, each by name with its numeric
/// id.
pub struct Registries {
    pub entity_types: Vec<(String, u16)>,
    pub biomes: Vec<(String, u16)>,
}

/// The state after applying one pack file: a function file that parses is
/// stored under its id; a tag file of functions, entity types or biomes is
/// merged into its table; other files, and function files that do not
/// parse, change nothing.
pub open spec fn apply_file_result(m: ManagerView, f: PackFile, registries: Registries) -> ManagerView {
    match resource_id(f.path@, "function"@, ".mcfunction"@) {
        Some(id) => if valid_utf8(f.contents@) {
            match function_commands(lines_of(decode_utf8(f.contents@))) {
                Ok(commands) => ManagerView { functions: map_put(m.functions, id, commands), ..m },
                Err(_) => m,
            }
        } else {
            m
        },
        None => match tag_id(f.path@, "function"@) {
            Some(id) => match f.tag {
                Some(t) => ManagerView {
                    tags: merged_tag(m.tags, id, t.replace, function_tag_entries(t.values@)),
                    ..m
                },
                None => m,
            },
            None => match tag_id(f.path@, "entity_type"@) {
                Some(id) => match f.tag {
                    Some(t) => ManagerView {
                        entity_type_tags: merged_tag(
                            m.entity_type_tags,
                            id,
                            t.replace,
                            element_tag_entries(t.values@, registry_view(registries.entity_types@)),
                        ),
                        ..m
                    },
                    None => m,
                },
                None => match tag_id(f.path@, "worldgen/biome"@) {
                    Some(id) => match f.tag {
                        Some(t) => ManagerView {
                            biome_tags: merged_tag(
                                m.biome_tags,
                                id,
                                t.replace,
                                element_tag_entries(t.values@, registry_view(registries.biomes@)),
                            ),
                            ..m
                        },
                        None => m,
                    },
                    None => m,
                },
            },
        },
    }
}

/// `order` with position `i` placed after every position whose key does
/// not sort strictly after `keys[i]`.
pub open spec fn insert_position(keys: Seq<Seq<char>>, order: Seq<int>, i: int) -> Seq<int> {
    match first_where(order, |j: int| chars_lt(keys[i], keys[j])) {
        Some(p) => order.insert(p, i),
        None => order.push(i),
    }
}

/// The positions of `keys` sorted by key; equal keys keep their order.
pub open spec fn sorted_positions(keys: Seq<Seq<char>>, n: int) -> Seq<int>
    decreases n,
{
    if n <= 0 {
        Seq::empty()
    } else {
        insert_position(keys, sorted_positions(keys, n - 1), n - 1)
    }
}

proof fn lemma_sorted_positions(keys: Seq<Seq<char>>, n: int)
    requires
        n >= 0,
    ensures
        sorted_positions(keys, n).len() == n,
        forall|k: int| 0 <= k < n ==> 0 <= #[trigger] sorted_positions(keys, n)[k] < n,
    decreases n,
{
    if n > 0 {
        lemma_sorted_positions(keys, n - 1);
        let order = sorted_positions(keys, n - 1);
        let test = |j: int| chars_lt(keys[n - 1], keys[j]);
        lemma_first_where_some(order, test);
        match first_where(order, test) {
            Some(p) => {
                let r = order.insert(p, n - 1);
                assert forall|k: int| 0 <= k < n implies 0 <= #[trigger] r[k] < n by {
                    if k < p {
                        assert(r[k] == order[k]);
                    } else if k > p {
                        assert(r[k] == order[k - 1]);
                    }
                }
            },
            None => {},
        }
    }
}

/// The positions of `keys` in sorted order; see [`sorted_positions`].
fn sort_positions(keys: &Vec<String>) -> (r: Vec<usize>)
    ensures
        r@.map_values(|i: usize| i as int) == sorted_positions(keys@.map_values(|k: String| k@), keys@.len() as int),
        forall|k: int| 0 <= k < r@.len() ==> r@[k] < keys@.len(),
{
    let ghost kv = keys@.map_values(|k: String| k@);
    let mut order: Vec<usize> = Vec::new();
    let mut i: usize = 0;
    proof {
        assert(order@.map_values(|i: usize| i as int) =~= Seq::<int>::empty());
    }
    while i < keys.len()
        invariant
            i <= keys@.len(),
            kv == keys@.map_values(|k: String| k@),
            order@.map_values(|i: usize| i as int) == sorted_positions(kv, i as int),
            forall|k: int| 0 <= k < order@.len() ==> order@[k] < i,
        decreases keys@.len() - i,
    {
        let ghost ov = order@.map_values(|i: usize| i as int);
        let mut p: usize = 0;
        while p < order.len() && !str_before(keys[i].as_str(), keys[order[p]].as_str())
            invariant
                p <= order@.len(),
                i < keys@.len(),
                ov == order@.map_values(|i: usize| i as int),
                kv == keys@.map_values(|k: String| k@),
                forall|k: int| 0 <= k < order@.len() ==> order@[k] < i,
                forall|k: int| 0 <= k < p ==> !chars_lt(kv[i as int], kv[#[trigger] ov[k]]),
            decreases order@.len() - p,
        {
            p = p + 1;
        }
        proof {
            let test = |j: int| chars_lt(kv[i as int], kv[j]);
            if p < order@.len() {
                assert(test(ov[p as int]));
                assert forall|k: int| 0 <= k < p implies !test(#[trigger] ov[k]) by {}
                lemma_first_where(ov, test, p as int);
            } else {
                assert forall|k: int| 0 <= k < ov.len() implies !test(#[trigger] ov[k]) by {}
                lemma_first_where_none(ov, test);
            }
        }
        order.insert(p, i);
        proof {
            let nv = order@.map_values(|i: usize| i as int);
            if p < ov.len() {
                assert(nv =~= ov.insert(p as int, i as int));
            } else {
                assert(nv =~= ov.push(i as int));
            }
            assert(nv == sorted_positions(kv, i + 1));
            assert forall|k: int| 0 <= k < order@.len() implies order@[k] < i + 1 by {
                if k < p {
                } else if k > p {
                    assert(order@[k] == ov[k - 1]);
                }
            }
        }
        i = i + 1;
    }
    order
}

pub open spec fn paths_of(files: Seq<PackFile>) -> Seq<Seq<char>> {
    files.map_values(|f: PackFile| f.path@)
}

/// The state after applying the files `files`, in order.
pub open spec fn apply_files(m: ManagerView, files: Seq<PackFile>, registries: Registries) -> ManagerView
    decreases files.len(),
{
    if files.len() == 0 {
        m
    } else {
        apply_file_result(apply_files(m, files.drop_last(), registries), files.last(), registries)
    }
}

/// The state after applying a pack: its files in the order of their paths.
pub open spec fn apply_pack_result(m: ManagerView, pack: LoadedPack, registries: Registries) -> ManagerView {
    apply_files(
        m,
        sorted_positions(paths_of(pack.files@), pack.files@.len() as int).map_values(|i: int| pack.files@[i]),
        registries,
    )
}

/// The state after applying the packs `packs`, in order.
pub open spec fn apply_packs(m: ManagerView, packs: Seq<LoadedPack>, registries: Registries) -> ManagerView
    decreases packs.len(),
{
    if packs.len() == 0 {
        m
    } else {
        apply_pack_result(apply_packs(m, packs.drop_last(), registries), packs.last(), registries)
    }
}

/// The commands that file `f` defines for function `id`: it is the function
/// file of `id`, and its text reads as commands.
pub open spec fn file_function(f: PackFile, id: IdentifierView) -> Option<Seq<CommandView>> {
    if resource_id(f.path@, "function"@, ".mcfunction"@) == Some(id) && valid_utf8(f.contents@) {
        match function_commands(lines_of(decode_utf8(f.contents@))) {
            Ok(commands) => Some(commands),
            Err(_) => None,
        }
    } else {
        None
    }
}

/// The commands of function `id` in the last of `files` that defines it.
pub open spec fn last_function(files: Seq<PackFile>, id: IdentifierView) -> Option<Seq<CommandView>>
    decreases files.len(),
{
    if files.len() == 0 {
        None
    } else {
        match file_function(files.last(), id) {
            Some(commands) => Some(commands),
            None => last_function(files.drop_last(), id),
        }
    }
}

/// The files of a pack in the order they are applied: by path.
pub open spec fn pack_files(pack: LoadedPack) -> Seq<PackFile> {
    sorted_positions(paths_of(pack.files@), pack.files@.len() as int).map_values(|i: int| pack.files@[i])
}

/// The commands of function `id` in the last of `packs` that defines it,
/// each pack's files taken in the order they are applied.
pub open spec fn last_pack_function(packs: Seq<LoadedPack>, id: IdentifierView) -> Option<Seq<CommandView>>
    decreases packs.len(),
{
    if packs.len() == 0 {
        None
    } else {
        match last_function(pack_files(packs.last()), id) {
            Some(commands) => Some(commands),
            None => last_pack_function(packs.drop_last(), id),
        }
    }
}

proof fn lemma_files_last_wins(m: ManagerView, files: Seq<PackFile>, registries: Registries, id: IdentifierView)
    requires
        unique_keys(m.functions),
    ensures
        unique_keys(apply_files(m, files, registries).functions),
        map_get(apply_files(m, files, registries).functions, id) == match last_function(files, id) {
            Some(commands) => Some(commands),
            None => map_get(m.functions, id),
        },
    decreases files.len(),
{
    if files.len() > 0 {
        let rest = files.drop_last();
        lemma_files_last_wins(m, rest, registries, id);
        let m1 = apply_files(m, rest, registries);
        let f = files.last();
        if let Some(fid) = resource_id(f.path@, "function"@, ".mcfunction"@) {
            if valid_utf8(f.contents@) {
                if let Ok(commands) = function_commands(lines_of(decode_utf8(f.contents@))) {
                    lemma_map_put(m1.functions, fid, commands);
                }
            }
        }
    }
}

/// Applying packs in order, a function holds the commands of the last pack
/// that defines it, and within that pack of the last file, by path, that
/// does; a function that no pack defines is as it was.
pub proof fn lemma_last_pack_wins(m: ManagerView, packs: Seq<LoadedPack>, registries: Registries, id: IdentifierView)
    requires
        unique_keys(m.functions),
    ensures
        unique_keys(apply_packs(m, packs, registries).functions),
        map_get(apply_packs(m, packs, registries).functions, id) == match last_pack_function(packs, id) {
            Some(commands) => Some(commands),
            None => map_get(m.functions, id),
        },
    decreases packs.len(),
{
    if packs.len() > 0 {
        let rest = packs.drop_last();
        lemma_last_pack_wins(m, rest, registries, id);
        let m1 = apply_packs(m, rest, registries);
        lemma_files_last_wins(m1, pack_files(packs.last()), registries, id);
    }
}

impl DataPackManager {
    /// Applies one pack file; see [`apply_file_result`].
    pub fn apply_file(&mut self, file: &PackFile, registries: &Registries)
        ensures
            final(self)@ == apply_file_result(old(self)@, *file, *registries),
    {
        proof {
            reveal_strlit("function");
            reveal_strlit("entity_type");
            reveal_strlit("worldgen/biome");
        }
        if let Some(id) = function_id_from_path(file.path.as_str()) {
            if let Ok(function) = parse_function(&id, file.contents.as_slice()) {
                self.put_function(function);
            }
            return;
        }
        if let Some(id) = tag_id_from_path(file.path.as_str(), "function") {
            if let Some(tag) = &file.tag {
                self.apply_function_tag(&id, tag);
            }
        } else if let Some(id) = tag_id_from_path(file.path.as_str(), "entity_type") {
            if let Some(tag) = &file.tag {
                self.apply_entity_type_tag(&id, tag, &registries.entity_types);
            }
        } else if let Some(id) = tag_id_from_path(file.path.as_str(), "worldgen/biome") {
            if let Some(tag) = &file.tag {
                self.apply_biome_tag(&id, tag, &registries.biomes);
            }
        }
    }

    /// Applies the files of a pack in the order of their paths; a later file
    /// replaces a function of the same id, and merges into or replaces a tag.
    pub fn apply_pack(&mut self, pack: &LoadedPack, registries: &Registries)
        ensures
            final(self)@ == apply_pack_result(old(self)@, *pack, *registries),
    {
        let paths = file_paths(&pack.files);
        let order = sort_positions(&paths);
        proof {
            lemma_sorted_positions(paths_of(pack.files@), pack.files@.len() as int);
            assert(paths@.map_values(|k: String| k@).len() == pack.files@.len());
            assert(paths@.len() == pack.files@.len());
            assert(order@.map_values(|i: usize| i as int).len() == order@.len());
        }
        let ghost start = self@;
        let ghost sorted = sorted_positions(paths_of(pack.files@), pack.files@.len() as int).map_values(
            |i: int| pack.files@[i],
        );
        let mut k: usize = 0;
        while k < order.len()
            invariant
                k <= order@.len(),
                forall|j: int| 0 <= j < order@.len() ==> order@[j] < pack.files@.len(),
                sorted.len() == order@.len(),
                forall|j: int| 0 <= j < order@.len() ==> #[trigger] sorted[j] == pack.files@[order@[j] as int],
                self@ == apply_files(start, sorted.take(k as int), *registries),
            decreases order@.len() - k,
        {
            proof {
                assert(sorted.take(k + 1).drop_last() =~= sorted.take(k as int));
            }
            self.apply_file(&pack.files[order[k]], registries);
            k = k + 1;
        }
        proof {
            assert(sorted.take(sorted.len() as int) =~= sorted);
        }
    }

    #[verifier::spinoff_prover]
    #[verifier::rlimit(60)]
    /// The manager of a world whose packs `packs` were read: starting from the
    /// given registry tags, the packs are applied in the order of their names,
    /// and the `minecraft:load` and `minecraft:tick` tags are resolved.
    pub fn from_packs(
        vanilla_entity_type_tags: &Vec<(String, Vec<u16>)>,
        vanilla_biome_tags: &Vec<(String, Vec<u16>)>,
        registries: &Registries,
        packs: &Vec<LoadedPack>,
    ) -> (r: DataPackManager)
        ensures
            ({
                let base = initial_state(
                    vanilla_tags(raw_tags_view(vanilla_entity_type_tags@)),
                    vanilla_tags(raw_tags_view(vanilla_biome_tags@)),
                );
                let names = packs@.map_values(|p: LoadedPack| p.name@);
                let order = sorted_positions(names, packs@.len() as int);
                let applied = apply_packs(base, order.map_values(|i: int| packs@[i]), *registries);
                &&& r@.functions == applied.functions
                &&& r@.tags == applied.tags
                &&& r@.entity_type_tags == applied.entity_type_tags
                &&& r@.biome_tags == applied.biome_tags
                &&& r@.loaded_packs == order.map_values(|i: int| names[i])
                &&& r@.load_functions == resolved_tag(applied.tags, keys_of(applied.functions), minecraft_id("load"@), Seq::empty())
                &&& r@.tick_functions == resolved_tag(applied.tags, keys_of(applied.functions), minecraft_id("tick"@), Seq::empty())
                &&& r@.reported_command_errors == Seq::<Seq<char>>::empty()
            }),
    {
        let mut manager = DataPackManager::new(vanilla_entity_type_tags, vanilla_biome_tags);
        let names = pack_names(packs);
        let ghost nv = packs@.map_values(|p: LoadedPack| p.name@);
        let order = sort_positions(&names);
        proof {
            lemma_sorted_positions(nv, packs@.len() as int);
            assert(names@.map_values(|k: String| k@).len() == packs@.len());
            assert(names@.len() == packs@.len());
            assert(order@.map_values(|i: usize| i as int).len() == order@.len());
        }
        let ghost sorted = sorted_positions(nv, packs@.len() as int).map_values(|i: int| packs@[i]);
        let ghost base = manager@;
        let mut loaded: Vec<String> = Vec::new();
        let mut k: usize = 0;
        while k < order.len()
            invariant
                k <= order@.len(),
                forall|j: int| 0 <= j < order@.len() ==> order@[j] < packs@.len(),
                sorted.len() == order@.len(),
                forall|j: int| 0 <= j < order@.len() ==> #[trigger] sorted[j] == packs@[order@[j] as int],
                manager@ == apply_packs(base, sorted.take(k as int), *registries),
                loaded@.map_values(|k: String| k@) == sorted.take(k as int).map_values(|p: LoadedPack| p.name@),
            decreases order@.len() - k,
        {
            proof {
                assert(sorted.take(k + 1).drop_last() =~= sorted.take(k as int));
            }
            let pack = &packs[order[k]];
            manager.apply_pack(pack, registries);
            let ghost before = loaded@.map_values(|k: String| k@);
            let name = pack.name.clone();
            loaded.push(name);
            proof {
                assert(loaded@.map_values(|k: String| k@) =~= before.push(sorted[k as int].name@));
                assert(sorted.take(k + 1).map_values(|p: LoadedPack| p.name@) =~= sorted.take(k as int).map_values(|p: LoadedPack| p.name@).push(sorted[k as int].name@));
            }
            k = k + 1;
        }
        proof {
            assert(sorted.take(sorted.len() as int) =~= sorted);
            let order_v = sorted_positions(nv, packs@.len() as int);
            assert(sorted.map_values(|p: LoadedPack| p.name@) =~= order_v.map_values(|i: int| nv[i]));
            reveal_strlit("minecraft");
        }
        let load = manager.resolve_tag(&Identifier { namespace: owned("minecraft"), path: owned("load") });
        let tick = manager.resolve_tag(&Identifier { namespace: owned("minecraft"), path: owned("tick") });
        proof {
            use_type_invariant(&manager);
            reveal_strlit("load");
            reveal_strlit("tick");
        }
        DataPackManager {
            functions: manager.functions,
            tags: manager.tags,
            entity_type_tags: manager.entity_type_tags,
            biome_tags: manager.biome_tags,
            load_functions: load,
            tick_functions: tick,
            loaded_packs: loaded,
            reported_command_errors: Vec::new(),
        }
    }
}

fn file_paths(files: &Vec<PackFile>) -> (r: Vec<String>)
    ensures
        r@.map_values(|k: String| k@) == paths_of(files@),
{
    let mut paths: Vec<String> = Vec::new();
    let mut i: usize = 0;
    while i < files.len()
        invariant
            i <= files@.len(),
            paths@.map_values(|k: String| k@) == paths_of(files@).take(i as int),
        decreases files@.len() - i,
    {
        let ghost before = paths@.map_values(|k: String| k@);
        let path = files[i].path.clone();
        paths.push(path);
        assert(paths@.map_values(|k: String| k@) =~= before.push(files@[i as int].path@));
        i = i + 1;
        assert(paths@.map_values(|k: String| k@) =~= paths_of(files@).take(i as int));
    }
    assert(paths_of(files@).take(files@.len() as int) =~= paths_of(files@));
    paths
}

fn pack_names(packs: &Vec<LoadedPack>) -> (r: Vec<String>)
    ensures
        r@.map_values(|k: String| k@) == packs@.map_values(|p: LoadedPack| p.name@),
{
    let mut names: Vec<String> = Vec::new();
    let mut i: usize = 0;
    while i < packs.len()
        invariant
            i <= packs@.len(),
            names@.map_values(|k: String| k@) == packs@.map_values(|p: LoadedPack| p.name@).take(i as int),
        decreases packs@.len() - i,
    {
        let ghost before = names@.map_values(|k: String| k@);
        let name = packs[i].name.clone();
        names.push(name);
        assert(names@.map_values(|k: String| k@) =~= before.push(packs@[i as int].name@));
        i = i + 1;
        assert(names@.map_values(|k: String| k@) =~= packs@.map_values(|p: LoadedPack| p.name@).take(i as int));
    }
    assert(packs@.map_values(|p: LoadedPack| p.name@).take(packs@.len() as int) =~= packs@.map_values(|p: LoadedPack| p.name@));
    names
}

/// The identifier `minecraft:<path>`.
pub open spec fn minecraft_id(path: Seq<char>) -> IdentifierView {
    IdentifierView { namespace: default_namespace(), path }
}

/// The state of a manager without packs, with the given registry tags.
pub open spec fn initial_state(
    entity_type_tags: Seq<(IdentifierView, Seq<ElementEntryView>)>,
    biome_tags: Seq<(IdentifierView, Seq<ElementEntryView>)>,
) -> ManagerView {
    ManagerView {
        functions: Seq::empty(),
        tags: Seq::empty(),
        entity_type_tags,
        biome_tags,
        load_functions: Seq::empty(),
        tick_functions: Seq::empty(),
        loaded_packs: Seq::empty(),
        reported_command_errors: Seq::empty(),
    }
}

// ---------------------------------------------------------------------------
// Running functions

/// How deeply functions may call functions.
pub const MAX_FUNCTION_DEPTH: usize = 128;

/// Why running a function or a function tag stopped.
#[derive(Debug, PartialEq, Eq)]
pub enum FunctionExecutionError {
    UnknownFunction(Identifier),
    UnknownTag(Identifier),
    /// Functions called functions more than [`MAX_FUNCTION_DEPTH`] deep.
    RecursionLimit,
    /// The chain of commands ran longer than the game rule allows.
    CommandLimit(i64),
}

/// The counters of one chain of function calls: the commands run so far,
/// how deep the calls are, and how many commands the chain may run.
#[derive(Debug, Clone, Copy, PartialEq, Eq, Structural)]
pub struct FunctionExecutionState {
    pub commands: i64,
    pub depth: usize,
    pub max_commands: i64,
}

impl FunctionExecutionState {
    /// A fresh chain that may run `max_command_sequence_length` commands (none
    /// when that is negative).
    pub fn new(max_command_sequence_length: i64) -> (r: FunctionExecutionState)
        ensures
            r == (FunctionExecutionState {
                commands: 0,
                depth: 0,
                max_commands: if max_command_sequence_length < 0 {
                    0
                } else {
                    max_command_sequence_length
                },
            }),
    {
        let max_commands = if max_command_sequence_length < 0 {
            0
        } else {
            max_command_sequence_length
        };
        FunctionExecutionState { commands: 0, depth: 0, max_commands }
    }

    /// Enters a function: fails when the calls are already
    /// [`MAX_FUNCTION_DEPTH`] deep.
    pub fn enter(&mut self) -> (r: Result<(), FunctionExecutionError>)
        ensures
            old(self).depth >= MAX_FUNCTION_DEPTH ==> r == Err::<(), FunctionExecutionError>(
                FunctionExecutionError::RecursionLimit,
            ) && *final(self) == *old(self),
            old(self).depth < MAX_FUNCTION_DEPTH ==> r is Ok && *final(self) == (FunctionExecutionState {
                depth: (old(self).depth + 1) as usize,
                ..*old(self)
            }),
    {
        if self.depth >= MAX_FUNCTION_DEPTH {
            return Err(FunctionExecutionError::RecursionLimit);
        }
        self.depth = self.depth + 1;
        Ok(())
    }

    /// Leaves a function.
    pub fn leave(&mut self)
        requires
            old(self).depth > 0,
        ensures
            *final(self) == (FunctionExecutionState { depth: (old(self).depth - 1) as usize, ..*old(self) }),
    {
        self.depth = self.depth - 1;
    }

    /// Counts one more command: fails, counting nothing, when that would
    /// pass the limit of the chain.
    pub fn count_command(&mut self) -> (r: Result<(), FunctionExecutionError>)
        ensures
            old(self).commands + 1 > old(self).max_commands ==> r == Err::<(), FunctionExecutionError>(
                FunctionExecutionError::CommandLimit(old(self).max_commands),
            ) && *final(self) == *old(self),
            old(self).commands + 1 <= old(self).max_commands ==> r is Ok && *final(self) == (FunctionExecutionState {
                commands: (old(self).commands + 1) as i64,
                ..*old(self)
            }),
    {
        if self.commands >= self.max_commands {
            return Err(FunctionExecutionError::CommandLimit(self.max_commands));
        }
        self.commands = self.commands + 1;
        Ok(())
    }
}

impl DataPackManager {
    /// The functions that function tag `id` runs, or why it cannot run: the
    /// tag does not exist.
    pub fn tag_functions(&self, id: &Identifier) -> (r: Result<Vec<Identifier>, FunctionExecutionError>)
        ensures
            map_get(self@.tags, id@) is None ==> (r matches Err(FunctionExecutionError::UnknownTag(t)) && t@ == id@),
            map_get(self@.tags, id@) is Some ==> (r matches Ok(ids) && ids_view(ids@) == resolved_tag(
                self@.tags,
                keys_of(self@.functions),
                id@,
                Seq::empty(),
            )),
    {
        if !self.has_tag(id) {
            return Err(FunctionExecutionError::UnknownTag(id.copy()));
        }
        Ok(self.resolve_tag(id))
    }

    /// The function `id`, or why it cannot run: it does not exist.
    pub fn function_to_run(&self, id: &Identifier) -> (r: Result<&DataPackFunction, FunctionExecutionError>)
        ensures
            match map_get(self@.functions, id@) {
                Some(commands) => r matches Ok(f) && f.id@ == id@ && commands_view(f.commands@) == commands,
                None => r matches Err(FunctionExecutionError::UnknownFunction(t)) && t@ == id@,
            },
    {
        match self.function(id) {
            Some(f) => Ok(f),
            None => Err(FunctionExecutionError::UnknownFunction(id.copy())),
        }
    }
}

/// What `{:?}` writes for the string `s`.
pub uninterp spec fn debug_text(s: Seq<char>) -> Seq<char>;

/// The string `s` as `{:?}` writes it, by std's `Debug` for `str`: in double
/// quotes, with quotes, backslashes and non-printing characters escaped. The
/// contract names the result; it does not spell out the escaping.
#[verifier::external_body]
fn debug_quoted(s: &str) -> (r: String)
    ensures
        r@ == debug_text(s@),
{
    format!("{:?}", s)
}

/// The message that reports a failed command of a function: the function,
/// the command's line, the command as `{:?}` writes it, and what went wrong,
/// as in `ns:path:3: command "say hi" failed: detail`.
pub open spec fn command_error_message(function: IdentifierView, line: nat, command: Seq<char>, detail: Seq<char>) -> Seq<
    char,
> {
    id_text(function) + ":"@ + decimal_text(line) + ": command "@ + debug_text(command) + " failed: "@ + detail
}

/// The message for `command` of `function` failing with `detail`; see
/// [`command_error_message`].
pub fn command_error_text(function: &DataPackFunction, command: &FunctionCommand, detail: &str) -> (r: String)
    ensures
        r@ == command_error_message(function.id@, command.line as nat, command.command@, detail@),
{
    let mut m = function.id.to_string();
    push_str(&mut m, ":");
    push_decimal(&mut m, command.line);
    push_str(&mut m, ": command ");
    let quoted = debug_quoted(command.command.as_str());
    push_str(&mut m, quoted.as_str());
    push_str(&mut m, " failed: ");
    push_str(&mut m, detail);
    proof {
        assert(m@ =~= command_error_message(function.id@, command.line as nat, command.command@, detail@));
    }
    m
}

impl DataPackManager {
    /// Records that `command` of `function` failed with `detail`, and gives
    /// the message to log: the first time that message comes up, and nothing
    /// when it was reported before.
    pub fn report_command_error(&mut self, function: &DataPackFunction, command: &FunctionCommand, detail: &str) -> (r:
        Option<String>)
        ensures
            ({
                let m = command_error_message(function.id@, command.line as nat, command.command@, detail@);
                if old(self)@.reported_command_errors.contains(m) {
                    r is None && final(self)@ == old(self)@
                } else {
                    r matches Some(t) && t@ == m && final(self)@ == (ManagerView {
                        reported_command_errors: old(self)@.reported_command_errors.push(m),
                        ..old(self)@
                    })
                }
            }),
    {
        proof {
            use_type_invariant(&*self);
        }
        let message = command_error_text(function, command, detail);
        let ghost v = self@;
        let ghost m = message@;
        let mut i: usize = 0;
        while i < self.reported_command_errors.len()
            invariant
                i <= self.reported_command_errors@.len(),
                v == self@,
                m == message@,
                m == command_error_message(function.id@, command.line as nat, command.command@, detail@),
                forall|j: int| 0 <= j < i ==> v.reported_command_errors[j] != m,
            decreases self.reported_command_errors@.len() - i,
        {
            if string_eq(&self.reported_command_errors[i], &message) {
                proof {
                    assert(v.reported_command_errors[i as int] == m);
                    assert(v.reported_command_errors.contains(m));
                }
                return None;
            }
            i = i + 1;
        }
        proof {
            assert(!v.reported_command_errors.contains(m));
        }
        let mut reported = Vec::new();
        std::mem::swap(&mut reported, &mut self.reported_command_errors);
        let copy = message.clone();
        reported.push(copy);
        proof {
            assert(reported@.map_values(|t: String| t@) =~= v.reported_command_errors.push(m));
        }
        self.reported_command_errors = reported;
        Some(message)
    }
}

/// A command failure is reported once: the state after its first report
/// records its message, so that reporting it again gives nothing.
pub proof fn lemma_reported_once(v: ManagerView, m: Seq<char>)
    ensures
        (ManagerView { reported_command_errors: v.reported_command_errors.push(m), ..v }).reported_command_errors.contains(
            m,
        ),
{
    let after = v.reported_command_errors.push(m);
    assert(after[after.len() - 1] == m);
}

/// A function being run: its commands, the next one to run, how many ran
/// without failing, and why the run stopped early, if it did.
pub struct FunctionRun {
    pub function: DataPackFunction,
    pub next: usize,
    pub successful: i32,
    pub fatal: Option<FunctionExecutionError>,
}

fn copy_commands(commands: &Vec<FunctionCommand>) -> (r: Vec<FunctionCommand>)
    ensures
        commands_view(r@) == commands_view(commands@),
{
    let mut out: Vec<FunctionCommand> = Vec::new();
    let mut i: usize = 0;
    while i < commands.len()
        invariant
            i <= commands@.len(),
            commands_view(out@) == commands_view(commands@).take(i as int),
        decreases commands@.len() - i,
    {
        let ghost before = commands_view(out@);
        out.push(FunctionCommand { line: commands[i].line, command: commands[i].command.clone() });
        proof {
            assert(commands_view(out@) =~= before.push(commands_view(commands@)[i as int]));
            assert(commands_view(commands@).take(i + 1) =~= commands_view(commands@).take(i as int).push(
                commands_view(commands@)[i as int],
            ));
        }
        i = i + 1;
    }
    proof {
        assert(commands_view(commands@).take(commands@.len() as int) =~= commands_view(commands@));
    }
    out
}

impl FunctionRun {
    /// Starts running function `id` within the chain `state`: fails when
    /// the function does not exist, or when the calls are already too deep,
    /// and otherwise enters it.
    pub fn start(manager: &DataPackManager, id: &Identifier, state: &mut FunctionExecutionState) -> (r: Result<
        FunctionRun,
        FunctionExecutionError,
    >)
        ensures
            match map_get(manager@.functions, id@) {
                None => (r matches Err(FunctionExecutionError::UnknownFunction(t)) && t@ == id@) && *final(state)
                    == *old(state),
                Some(commands) => if old(state).depth >= MAX_FUNCTION_DEPTH {
                    r == Err::<FunctionRun, FunctionExecutionError>(FunctionExecutionError::RecursionLimit)
                        && *final(state) == *old(state)
                } else {
                    &&& r matches Ok(run) && run.function.id@ == id@ && commands_view(run.function.commands@)
                        == commands && run.next == 0 && run.successful == 0 && run.fatal is None
                    &&& *final(state) == (FunctionExecutionState {
                        depth: (old(state).depth + 1) as usize,
                        ..*old(state)
                    })
                },
            },
    {
        let function = match manager.function_to_run(id) {
            Ok(f) => f,
            Err(e) => {
                return Err(e);
            },
        };
        let copy = DataPackFunction { id: function.id.copy(), commands: copy_commands(&function.commands) };
        match state.enter() {
            Ok(()) => {},
            Err(e) => {
                return Err(e);
            },
        }
        Ok(FunctionRun { function: copy, next: 0, successful: 0, fatal: None })
    }

    /// The next command to run, counted toward the chain's limit: none when
    /// every command ran or the run stopped; when counting it would pass the
    /// limit, the run stops with that error and nothing is counted.
    pub fn next_command(&mut self, state: &mut FunctionExecutionState) -> (r: Option<String>)
        requires
            old(self).next <= old(self).function.commands@.len(),
        ensures
            final(self).next == old(self).next && final(self).successful == old(self).successful
                && final(self).function == old(self).function,
            if old(self).fatal is Some || old(self).next == old(self).function.commands@.len() {
                r is None && final(self).fatal == old(self).fatal && *final(state) == *old(state)
            } else if old(state).commands + 1 > old(state).max_commands {
                r is None && final(self).fatal == Some(FunctionExecutionError::CommandLimit(old(state).max_commands))
                    && *final(state) == *old(state)
            } else {
                &&& r matches Some(c) && c@ == old(self).function.commands@[old(self).next as int].command@
                &&& final(self).fatal is None
                &&& *final(state) == (FunctionExecutionState {
                    commands: (old(state).commands + 1) as i64,
                    ..*old(state)
                })
            },
    {
        if self.fatal.is_some() || self.next == self.function.commands.len() {
            return None;
        }
        match state.count_command() {
            Ok(()) => Some(self.function.commands[self.next].command.clone()),
            Err(e) => {
                self.fatal = Some(e);
                None
            },
        }
    }

    /// Records how the command handed out last ran: a success is counted; a
    /// failure is reported, once per message (see
    /// [`DataPackManager::report_command_error`]), and the message to log
    /// is given back.
    pub fn record(&mut self, manager: &mut DataPackManager, result: Result<(), String>) -> (r: Option<String>)
        requires
            old(self).next < old(self).function.commands@.len(),
            old(self).successful < i32::MAX,
        ensures
            final(self).next == old(self).next + 1,
            final(self).function == old(self).function,
            final(self).fatal == old(self).fatal,
            match result {
                Ok(()) => final(self).successful == old(self).successful + 1 && r is None && final(manager)@
                    == old(manager)@,
                Err(detail) => {
                    let c = old(self).function.commands@[old(self).next as int];
                    let m = command_error_message(old(self).function.id@, c.line as nat, c.command@, detail@);
                    &&& final(self).successful == old(self).successful
                    &&& if old(manager)@.reported_command_errors.contains(m) {
                        r is None && final(manager)@ == old(manager)@
                    } else {
                        r matches Some(t) && t@ == m && final(manager)@ == (ManagerView {
                            reported_command_errors: old(manager)@.reported_command_errors.push(m),
                            ..old(manager)@
                        })
                    }
                },
            },
    {
        let next = self.next;
        let len = self.function.commands.len();
        assert(next < len);
        let message = match result {
            Ok(()) => {
                self.successful = self.successful + 1;
                None
            },
            Err(detail) => manager.report_command_error(
                &self.function,
                &self.function.commands[next],
                detail.as_str(),
            ),
        };
        self.next = next + 1;
        message
    }

    /// Ends the run: leaves the function, and gives the number of commands
    /// that ran without failing, or why the run stopped.
    pub fn finish(self, state: &mut FunctionExecutionState) -> (r: Result<i32, FunctionExecutionError>)
        requires
            old(state).depth > 0,
        ensures
            *final(state) == (FunctionExecutionState { depth: (old(state).depth - 1) as usize, ..*old(state) }),
            r == match self.fatal {
                Some(e) => Err::<i32, FunctionExecutionError>(e),
                None => Ok(self.successful),
            },
    {
        state.leave();
        match self.fatal {
            Some(e) => Err(e),
            None => Ok(self.successful),
        }
    }
}

} // verus!
