//! NBT paths such as `outer.values[-1]`: how they are read from a command.
use vstd::prelude::*;

use crate::nbt::{
    entry_index, entry_views, lemma_entry_index, lemma_entry_views, lemma_entry_views_update, lemma_nbt_views,
    lemma_nbt_views_update, nbt_view, nbt_views, put_entry, NbtCompound, NbtTag, NbtView,
};
use crate::reader::{next_char, CommandSyntaxError, StringReader};
use crate::text::{char_is_whitespace, is_whitespace};

verus! {

/// One step of an NBT path.
#[derive(Debug, PartialEq, Eq)]
pub enum PathNode {
    /// A key of a compound.
    Key(String),
    /// A position in a list; negative positions count from the end.
    Index(i32),
}

pub enum PathNodeView {
    Key(Seq<char>),
    Index(i32),
}

impl View for PathNode {
    type V = PathNodeView;

    open spec fn view(&self) -> PathNodeView {
        match self {
            PathNode::Key(k) => PathNodeView::Key(k@),
            PathNode::Index(i) => PathNodeView::Index(*i),
        }
    }
}

/// A path into NBT data.
#[derive(Debug, PartialEq, Eq)]
pub struct NbtPath(Vec<PathNode>);

impl View for NbtPath {
    type V = Seq<PathNodeView>;

    closed spec fn view(&self) -> Seq<PathNodeView> {
        self.0@.map_values(|n: PathNode| n@)
    }
}

impl NbtPath {
    /// The steps of the path.
    pub fn nodes(&self) -> (r: &Vec<PathNode>)
        ensures
            r@.map_values(|n: PathNode| n@) == self@,
    {
        &self.0
    }
}

/// A character that ends a key.
pub open spec fn key_stop(c: char) -> bool {
    c == '.' || c == '[' || c == ']' || is_whitespace(c)
}

/// The end of the key that starts at `i`.
pub open spec fn key_end(s: Seq<char>, i: int) -> int
    decreases s.len() - i,
{
    if i < 0 {
        0
    } else if i >= s.len() {
        s.len() as int
    } else if key_stop(s[i]) {
        i
    } else {
        key_end(s, i + 1)
    }
}

/// The end of the run of ASCII digits that starts at `i`.
pub open spec fn digits_end(s: Seq<char>, i: int) -> int
    decreases s.len() - i,
{
    if i < 0 {
        0
    } else if i >= s.len() {
        s.len() as int
    } else if !('0' <= s[i] <= '9') {
        i
    } else {
        digits_end(s, i + 1)
    }
}

/// The number that the decimal digits `d` write.
pub open spec fn digits_value(d: Seq<char>) -> int
    decreases d.len(),
{
    if d.len() == 0 {
        0
    } else {
        10 * digits_value(d.drop_last()) + (d.last() as int - '0' as int)
    }
}

pub proof fn lemma_key_end(s: Seq<char>, i: int)
    requires
        0 <= i <= s.len(),
    ensures
        i <= key_end(s, i) <= s.len(),
        forall|k: int| i <= k < key_end(s, i) ==> !key_stop(#[trigger] s[k]),
        key_end(s, i) < s.len() ==> key_stop(s[key_end(s, i)]),
    decreases s.len() - i,
{
    if i < s.len() && !key_stop(s[i]) {
        lemma_key_end(s, i + 1);
    }
}

pub proof fn lemma_digits_end(s: Seq<char>, i: int)
    requires
        0 <= i <= s.len(),
    ensures
        i <= digits_end(s, i) <= s.len(),
        forall|k: int| i <= k < digits_end(s, i) ==> '0' <= #[trigger] s[k] <= '9',
        digits_end(s, i) < s.len() ==> !('0' <= s[digits_end(s, i)] <= '9'),
    decreases s.len() - i,
{
    if i < s.len() && '0' <= s[i] <= '9' {
        lemma_digits_end(s, i + 1);
    }
}

/// The list index written at `i`, which holds `[`: an optional `-`, decimal
/// digits and `]`, with a value that fits an `i32`; with the position after
/// the `]`.
pub open spec fn index_at(s: Seq<char>, i: int) -> Option<(i32, int)> {
    let neg = next_char(s, i + 1) == Some('-');
    let d0 = if neg {
        i + 2
    } else {
        i + 1
    };
    let d1 = digits_end(s, d0);
    let magnitude = digits_value(s.subrange(d0, d1));
    let value = if neg {
        -magnitude
    } else {
        magnitude
    };
    if d1 == d0 || next_char(s, d1) != Some(']') || !(i32::MIN <= value <= i32::MAX) {
        None
    } else {
        Some((value as i32, d1 + 1))
    }
}

pub proof fn lemma_index_at(s: Seq<char>, i: int)
    requires
        0 <= i < s.len(),
    ensures
        index_at(s, i) matches Some((v, e)) ==> i < e <= s.len(),
{
    let neg = next_char(s, i + 1) == Some('-');
    let d0 = if neg {
        i + 2
    } else {
        i + 1
    };
    if d0 <= s.len() {
        lemma_digits_end(s, d0);
    }
}

/// The list indices written one after another from `j`, with the position
/// after them; `None` when one of them is malformed.
pub open spec fn indices(s: Seq<char>, j: int) -> Option<(Seq<PathNodeView>, int)>
    decreases s.len() - j,
{
    if 0 <= j < s.len() && s[j] == '[' {
        proof {
            lemma_index_at(s, j);
        }
        match index_at(s, j) {
            Some((v, k)) => match indices(s, k) {
                Some((rest, e)) => Some((seq![PathNodeView::Index(v)] + rest, e)),
                None => None,
            },
            None => None,
        }
    } else {
        Some((Seq::empty(), j))
    }
}

pub proof fn lemma_indices(s: Seq<char>, j: int)
    requires
        0 <= j <= s.len(),
    ensures
        indices(s, j) matches Some((n, e)) ==> j <= e <= s.len(),
    decreases s.len() - j,
{
    if 0 <= j < s.len() && s[j] == '[' {
        lemma_index_at(s, j);
        if let Some((v, k)) = index_at(s, j) {
            lemma_indices(s, k);
        }
    }
}

/// The NBT path written at `i`: `.`-separated segments, each a non-empty key
/// followed by list indices, ending at whitespace or at the end of the text;
/// with the position where it ends. `None` when it is malformed.
pub open spec fn path_at(s: Seq<char>, i: int) -> Option<(Seq<PathNodeView>, int)>
    decreases s.len() - i,
{
    if i < 0 || i > s.len() {
        None
    } else {
        let k = key_end(s, i);
        proof {
            lemma_key_end(s, i);
        }
        if k == i {
            None
        } else {
            proof {
                lemma_indices(s, k);
            }
            match indices(s, k) {
                None => None,
                Some((idx, j)) => {
                    let here = seq![PathNodeView::Key(s.subrange(i, k))] + idx;
                    match next_char(s, j) {
                        Some(c) => if c == '.' {
                            match path_at(s, j + 1) {
                                Some((rest, e)) => Some((here + rest, e)),
                                None => None,
                            }
                        } else if is_whitespace(c) {
                            Some((here, j))
                        } else {
                            None
                        },
                        None => Some((here, j)),
                    }
                },
            }
        }
    }
}

/// Where reading the list index at `i`, which holds `[`, stops when the
/// index is malformed: after its sign and digits.
pub open spec fn index_digits_end(s: Seq<char>, i: int) -> int {
    digits_end(
        s,
        if next_char(s, i + 1) == Some('-') {
            i + 2
        } else {
            i + 1
        },
    )
}

/// Where reading the list indices from `j` stops when one of them is
/// malformed.
pub open spec fn indices_error_at(s: Seq<char>, j: int) -> int
    decreases s.len() - j,
{
    if 0 <= j < s.len() && s[j] == '[' {
        proof {
            lemma_index_at(s, j);
        }
        match index_at(s, j) {
            Some((v, k)) => indices_error_at(s, k),
            None => index_digits_end(s, j),
        }
    } else {
        j
    }
}

/// Where reading the NBT path at `i` stops when it is malformed: at an
/// empty key, at the malformed list index, or at the character after a
/// segment that is neither `.`, whitespace nor the end.
pub open spec fn path_error_at(s: Seq<char>, i: int) -> int
    decreases s.len() - i,
{
    if i < 0 || i > s.len() {
        i
    } else {
        let k = key_end(s, i);
        proof {
            lemma_key_end(s, i);
        }
        if k == i {
            i
        } else {
            proof {
                lemma_indices(s, k);
            }
            match indices(s, k) {
                None => indices_error_at(s, k),
                Some((idx, j)) => if next_char(s, j) == Some('.') {
                    path_error_at(s, j + 1)
                } else {
                    j
                },
            }
        }
    }
}

fn is_digit(c: char) -> (r: bool)
    ensures
        r == ('0' <= c <= '9'),
{
    '0' <= c && c <= '9'
}

/// Reads the list index at the cursor, which is on a `[`.
fn read_index(reader: &mut StringReader) -> (r: Option<i32>)
    requires
        next_char(old(reader).text(), old(reader).pos()) == Some('['),
    ensures
        final(reader).text() == old(reader).text(),
        old(reader).pos() <= final(reader).pos() <= old(reader).text().len(),
        match index_at(old(reader).text(), old(reader).pos()) {
            Some((v, e)) => r == Some(v) && final(reader).pos() == e,
            None => r is None && final(reader).pos() == index_digits_end(old(reader).text(), old(reader).pos()),
        },
{
    let ghost s = reader.text();
    let ghost i = reader.pos();
    reader.skip();
    let neg = reader.peek() == Some('-');
    if neg {
        reader.skip();
    }
    let d0 = reader.cursor();
    let mut value: i64 = 0;
    let mut big = false;
    loop
        invariant
            reader.text() == s,
            d0 <= reader.pos() <= s.len(),
            forall|k: int| d0 <= k < reader.pos() ==> '0' <= #[trigger] s[k] <= '9',
            big ==> digits_value(s.subrange(d0 as int, reader.pos())) > 2147483648,
            !big ==> value == digits_value(s.subrange(d0 as int, reader.pos())) && 0 <= value
                <= 2147483648,
        ensures
            reader.text() == s,
            d0 <= reader.pos() <= s.len(),
            reader.pos() == digits_end(s, d0 as int),
            big ==> digits_value(s.subrange(d0 as int, reader.pos())) > 2147483648,
            !big ==> value == digits_value(s.subrange(d0 as int, reader.pos())),
        decreases s.len() - reader.pos(),
    {
        let c = match reader.peek() {
            Some(c) => c,
            None => {
                proof {
                    lemma_digits_end_at(s, d0 as int, reader.pos());
                }
                break;
            },
        };
        if !is_digit(c) {
            proof {
                lemma_digits_end_at(s, d0 as int, reader.pos());
            }
            break;
        }
        let ghost p = reader.pos();
        proof {
            assert(s.subrange(d0 as int, p + 1).drop_last() =~= s.subrange(d0 as int, p));
            assert(s.subrange(d0 as int, p + 1).last() == c);
        }
        if !big {
            let digit = (c as u32 - '0' as u32) as i64;
            value = value * 10 + digit;
            if value > 2147483648 {
                big = true;
            }
        }
        reader.skip();
    }
    let d1 = reader.cursor();
    if d1 == d0 || reader.peek() != Some(']') || big {
        return None;
    }
    if neg {
        if value > 2147483648 {
            return None;
        }
        reader.skip();
        Some((-value) as i32)
    } else {
        if value > 2147483647 {
            return None;
        }
        reader.skip();
        Some(value as i32)
    }
}

/// `digits_end` is the end of the run of digits from `d0`.
proof fn lemma_digits_end_at(s: Seq<char>, d0: int, p: int)
    requires
        0 <= d0 <= p <= s.len(),
        forall|k: int| d0 <= k < p ==> '0' <= #[trigger] s[k] <= '9',
        p == s.len() || !('0' <= s[p] <= '9'),
    ensures
        digits_end(s, d0) == p,
    decreases p - d0,
{
    if d0 < p {
        lemma_digits_end_at(s, d0 + 1, p);
    }
}

/// The key that starts at `i` ends at `p`.
proof fn lemma_key_end_at(s: Seq<char>, i: int, p: int)
    requires
        0 <= i <= p <= s.len(),
        forall|k: int| i <= k < p ==> !key_stop(#[trigger] s[k]),
        p == s.len() || key_stop(s[p]),
    ensures
        key_end(s, i) == p,
    decreases p - i,
{
    if i < p {
        lemma_key_end_at(s, i + 1, p);
    }
}

/// Reads the list indices at the cursor into `nodes`.
fn read_indices(reader: &mut StringReader, nodes: &mut Vec<PathNode>) -> (ok: bool)
    ensures
        final(reader).text() == old(reader).text(),
        old(reader).pos() <= final(reader).pos() <= old(reader).text().len(),
        match indices(old(reader).text(), old(reader).pos()) {
            Some((n, e)) => ok && final(nodes)@.map_values(|p: PathNode| p@) == old(nodes)@.map_values(
                |p: PathNode| p@,
            ) + n && final(reader).pos() == e,
            None => !ok && final(reader).pos() == indices_error_at(old(reader).text(), old(reader).pos()),
        },
{
    let ghost s = reader.text();
    let ghost j0 = reader.pos();
    let ghost n0 = nodes@.map_values(|p: PathNode| p@);
    let _ = reader.cursor();
    loop
        invariant
            reader.text() == s,
            s == old(reader).text(),
            j0 == old(reader).pos(),
            n0 == old(nodes)@.map_values(|p: PathNode| p@),
            j0 <= reader.pos() <= s.len(),
            indices(s, j0) == match indices(s, reader.pos()) {
                Some((n, e)) => Some((nodes@.map_values(|p: PathNode| p@).subrange(
                    n0.len() as int,
                    nodes@.len() as int,
                ) + n, e)),
                None => None,
            },
            n0.len() <= nodes@.len(),
            nodes@.map_values(|p: PathNode| p@).subrange(0, n0.len() as int) == n0,
            indices_error_at(s, j0) == indices_error_at(s, reader.pos()),
        decreases s.len() - reader.pos(),
    {
        if reader.peek() != Some('[') {
            proof {
                let nv = nodes@.map_values(|p: PathNode| p@);
                assert(nv =~= n0 + nv.subrange(n0.len() as int, nv.len() as int));
                assert(nv.subrange(n0.len() as int, nv.len() as int) + Seq::<PathNodeView>::empty()
                    =~= nv.subrange(n0.len() as int, nv.len() as int));
            }
            return true;
        }
        let ghost p = reader.pos();
        proof {
            lemma_index_at(s, p);
        }
        match read_index(reader) {
            Some(v) => {
                let ghost before = nodes@.map_values(|q: PathNode| q@);
                nodes.push(PathNode::Index(v));
                proof {
                    let nv = nodes@.map_values(|q: PathNode| q@);
                    assert(nv =~= before.push(PathNodeView::Index(v)));
                    assert(nv.subrange(0, n0.len() as int) =~= before.subrange(0, n0.len() as int));
                    match indices(s, reader.pos()) {
                        Some((n, e)) => {
                            assert(nv.subrange(n0.len() as int, nv.len() as int) + n
                                =~= before.subrange(n0.len() as int, before.len() as int) + (seq![
                                PathNodeView::Index(v),
                            ] + n));
                        },
                        None => {},
                    }
                }
            },
            None => {
                return false;
            },
        }
    }
}

/// Reads an NBT path argument.
pub struct NbtPathArgumentType;

impl NbtPathArgumentType {
    /// Reads the NBT path at the cursor; see [`path_at`]. A malformed path is
    /// reported with the text read up to where it went wrong.
    pub fn parse(&self, reader: &mut StringReader) -> (r: Result<NbtPath, CommandSyntaxError>)
        ensures
            final(reader).text() == old(reader).text(),
            match path_at(old(reader).text(), old(reader).pos()) {
                Some((n, e)) => r matches Ok(p) && p@ == n && final(reader).pos() == e,
                None => r matches Err(CommandSyntaxError::InvalidNbtPathNode(t)) && old(
                    reader,
                ).pos() <= final(reader).pos() <= old(reader).text().len() && final(reader).pos()
                    == path_error_at(old(reader).text(), old(reader).pos()) && t@ == old(
                    reader,
                ).text().subrange(old(reader).pos(), final(reader).pos()),
            },
    {
        let ghost s = reader.text();
        let start = reader.cursor();
        let mut nodes: Vec<PathNode> = Vec::new();
        loop
            invariant
                reader.text() == s,
                s == old(reader).text(),
                start == old(reader).pos(),
                start <= reader.pos() <= s.len(),
                path_error_at(s, start as int) == path_error_at(s, reader.pos()),
                path_at(s, start as int) == match path_at(s, reader.pos()) {
                    Some((n, e)) => Some((nodes@.map_values(|p: PathNode| p@) + n, e)),
                    None => None,
                },
            decreases s.len() - reader.pos(),
        {
            let key_start = reader.cursor();
            loop
                invariant
                    reader.text() == s,
                    key_start <= reader.pos() <= s.len(),
                    forall|k: int| key_start <= k < reader.pos() ==> !key_stop(#[trigger] s[k]),
                ensures
                    reader.text() == s,
                    key_start <= reader.pos() <= s.len(),
                    reader.pos() == key_end(s, key_start as int),
                decreases s.len() - reader.pos(),
            {
                match reader.peek() {
                    Some(c) => {
                        if c == '.' || c == '[' || c == ']' || char_is_whitespace(c) {
                            proof {
                                lemma_key_end_at(s, key_start as int, reader.pos());
                            }
                            break;
                        }
                        reader.skip();
                    },
                    None => {
                        proof {
                            lemma_key_end_at(s, key_start as int, reader.pos());
                        }
                        break;
                    },
                }
            }
            let key_end_pos = reader.cursor();
            if key_end_pos == key_start {
                return Err(CommandSyntaxError::InvalidNbtPathNode(reader.slice(start, key_end_pos)));
            }
            let ghost before = nodes@.map_values(|p: PathNode| p@);
            nodes.push(PathNode::Key(reader.slice(key_start, key_end_pos)));
            let ghost with_key = nodes@.map_values(|p: PathNode| p@);
            proof {
                assert(with_key =~= before.push(PathNodeView::Key(s.subrange(key_start as int, key_end_pos as int))));
                lemma_indices(s, key_end_pos as int);
            }
            if !read_indices(reader, &mut nodes) {
                return Err(CommandSyntaxError::InvalidNbtPathNode(reader.slice(start, reader.cursor())));
            }
            let ghost j = reader.pos();
            proof {
                let (idx, j2) = indices(s, key_end_pos as int)->0;
                let here = seq![PathNodeView::Key(s.subrange(key_start as int, key_end_pos as int))]
                    + idx;
                assert(nodes@.map_values(|p: PathNode| p@) =~= before + here);
            }
            match reader.peek() {
                Some(c) => {
                    if c == '.' {
                        reader.skip();
                        proof {
                            let nv = nodes@.map_values(|p: PathNode| p@);
                            match path_at(s, j + 1) {
                                Some((rest, e)) => {
                                    assert(before + (nv.subrange(before.len() as int, nv.len() as int) + rest)
                                        =~= nv + rest);
                                    assert(nv.subrange(before.len() as int, nv.len() as int) =~= nv.subrange(before.len() as int, nv.len() as int));
                                },
                                None => {},
                            }
                        }
                    } else if char_is_whitespace(c) {
                        proof {
                            assert(nodes@.map_values(|p: PathNode| p@) + Seq::<PathNodeView>::empty()
                                =~= nodes@.map_values(|p: PathNode| p@));
                        }
                        return Ok(NbtPath(nodes));
                    } else {
                        return Err(CommandSyntaxError::InvalidNbtPathNode(reader.slice(start, reader.cursor())));
                    }
                },
                None => {
                    return Ok(NbtPath(nodes));
                },
            }
        }
    }
}

/// The position a list index selects: negative indices count from the end.
pub open spec fn resolved_index(index: i32, len: nat) -> Option<int> {
    let i = if index < 0 {
        len + index
    } else {
        index as int
    };
    if 0 <= i < len {
        Some(i)
    } else {
        None
    }
}

/// `tag` with the value that `nodes` select set to `value`: a final key is
/// created when missing, every other step must exist. `None` when the path
/// does not fit the data.
pub open spec fn set_in_tag(tag: NbtView, nodes: Seq<PathNodeView>, value: NbtView) -> Option<NbtView>
    decreases nodes.len(),
{
    if nodes.len() == 0 {
        None
    } else {
        match nodes[0] {
            PathNodeView::Key(key) => match tag {
                NbtView::Compound(entries) => if nodes.len() == 1 {
                    Some(NbtView::Compound(put_entry(entries, key, value)))
                } else {
                    match entry_index(entries, key) {
                        Some(i) => match set_in_tag(entries[i].1, nodes.drop_first(), value) {
                            Some(child) => Some(NbtView::Compound(entries.update(i, (key, child)))),
                            None => None,
                        },
                        None => None,
                    }
                },
                _ => None,
            },
            PathNodeView::Index(index) => match tag {
                NbtView::List(items) => match resolved_index(index, items.len()) {
                    Some(i) => if nodes.len() == 1 {
                        Some(NbtView::List(items.update(i, value)))
                    } else {
                        match set_in_tag(items[i], nodes.drop_first(), value) {
                            Some(child) => Some(NbtView::List(items.update(i, child))),
                            None => None,
                        }
                    },
                    None => None,
                },
                _ => None,
            },
        }
    }
}

/// The root compound with the value that `nodes` select set to `value`;
/// the first step must be a key.
pub open spec fn set_in_root(root: Seq<(Seq<char>, NbtView)>, nodes: Seq<PathNodeView>, value: NbtView) -> Option<
    Seq<(Seq<char>, NbtView)>,
> {
    match set_in_tag(NbtView::Compound(root), nodes, value) {
        Some(NbtView::Compound(entries)) => Some(entries),
        _ => None,
    }
}

fn resolve_index(index: i32, len: usize) -> (r: Option<usize>)
    ensures
        match r {
            Some(i) => resolved_index(index, len as nat) == Some(i as int),
            None => resolved_index(index, len as nat) is None,
        },
{
    if index < 0 {
        let back = (-(index as i64)) as usize;
        if back <= len {
            if len - back < len {
                Some(len - back)
            } else {
                None
            }
        } else {
            None
        }
    } else if (index as usize) < len {
        Some(index as usize)
    } else {
        None
    }
}

/// Sets what `nodes[k..]` select in `tag`; gives back the new tag and
/// `true`, or the tag unchanged and `false`.
fn set_tag(tag: NbtTag, nodes: &Vec<PathNode>, k: usize, value: NbtTag) -> (r: (NbtTag, bool))
    requires
        k <= nodes@.len(),
    ensures
        ({
            let path = nodes@.map_values(|n: PathNode| n@).skip(k as int);
            match set_in_tag(tag@, path, value@) {
                Some(t) => r.1 && r.0@ == t,
                None => !r.1 && r.0@ == tag@,
            }
        }),
    decreases nodes@.len() - k,
{
    let ghost path = nodes@.map_values(|n: PathNode| n@).skip(k as int);
    if k == nodes.len() {
        return (tag, false);
    }
    assert(path[0] == nodes@[k as int]@);
    assert(path.drop_first() =~= nodes@.map_values(|n: PathNode| n@).skip(k + 1));
    let last = k + 1 == nodes.len();
    match &nodes[k] {
        PathNode::Key(key) => match tag {
            NbtTag::Compound(mut c) => {
                let ghost old_c = c@;
                if last {
                    c.put(key.clone(), value);
                    (NbtTag::Compound(c), true)
                } else {
                    proof {
                        lemma_entry_views(c.child_tags@);
                        lemma_entry_index(c@, key@);
                    }
                    match c.find(key) {
                        Some(i) => {
                            let ghost old_tags = c.child_tags@;
                            let (name, child) = c.child_tags.remove(i);
                            assert(old_tags[i as int] == (name, child));
                            let (new_child, done) = set_tag(child, nodes, k + 1, value);
                            let ghost entry = (name, new_child);
                            c.child_tags.insert(i, (name, new_child));
                            proof {
                                assert(c.child_tags@ =~= old_tags.update(i as int, entry));
                                lemma_entry_views_update(old_tags, i as int, entry);
                                assert(old_c[i as int] == (old_tags[i as int].0@, nbt_view(old_tags[i as int].1)));
                                if !done {
                                    assert(c@ =~= old_c);
                                }
                            }
                            (NbtTag::Compound(c), done)
                        },
                        None => (NbtTag::Compound(c), false),
                    }
                }
            },
            other => (other, false),
        },
        PathNode::Index(index) => match tag {
            NbtTag::List(mut items) => {
                let ghost old_items = items@;
                proof {
                    lemma_nbt_views(items@);
                }
                match resolve_index(*index, items.len()) {
                    Some(i) => {
                        if last {
                            let ghost v = value;
                            items.set(i, value);
                            proof {
                                lemma_nbt_views_update(old_items, i as int, v);
                            }
                            (NbtTag::List(items), true)
                        } else {
                            let child = items.remove(i);
                            assert(old_items[i as int] == child);
                            let (new_child, done) = set_tag(child, nodes, k + 1, value);
                            let ghost nc = new_child;
                            items.insert(i, new_child);
                            proof {
                                assert(items@ =~= old_items.update(i as int, nc));
                                lemma_nbt_views_update(old_items, i as int, nc);
                                if !done {
                                    assert(nbt_views(items@) =~= nbt_views(old_items));
                                }
                            }
                            (NbtTag::List(items), done)
                        }
                    },
                    None => (NbtTag::List(items), false),
                }
            },
            other => (other, false),
        },
    }
}

impl NbtPath {
    /// Sets the value this path selects in `root`; see [`set_in_root`].
    /// Where the path does not fit, `root` is left as it was.
    pub fn set(&self, root: &mut NbtCompound, value: NbtTag) -> (r: bool)
        ensures
            match set_in_root(old(root)@, self@, value@) {
                Some(entries) => r && final(root)@ == entries,
                None => !r && final(root)@ == old(root)@,
            },
    {
        let mut old_root = NbtCompound::new();
        std::mem::swap(root, &mut old_root);
        let ghost before = old_root@;
        assert(self@ =~= self.0@.map_values(|n: PathNode| n@).skip(0));
        let (tag, done) = set_tag(NbtTag::Compound(old_root), &self.0, 0, value);
        match tag {
            NbtTag::Compound(c) => {
                *root = c;
                done
            },
            other => {
                assert(false);
                false
            },
        }
    }
}

/// The value that `nodes` select in `tag`, if the path fits the data.
pub open spec fn get_in_tag(tag: NbtView, nodes: Seq<PathNodeView>) -> Option<NbtView>
    decreases nodes.len(),
{
    if nodes.len() == 0 {
        Some(tag)
    } else {
        match nodes[0] {
            PathNodeView::Key(key) => match tag {
                NbtView::Compound(entries) => match entry_index(entries, key) {
                    Some(i) => get_in_tag(entries[i].1, nodes.drop_first()),
                    None => None,
                },
                _ => None,
            },
            PathNodeView::Index(index) => match tag {
                NbtView::List(items) => match resolved_index(index, items.len()) {
                    Some(i) => get_in_tag(items[i], nodes.drop_first()),
                    None => None,
                },
                _ => None,
            },
        }
    }
}

/// `entry_index` finds the last entry of the key.
proof fn lemma_entry_index_last(entries: Seq<(Seq<char>, NbtView)>, key: Seq<char>)
    ensures
        match entry_index(entries, key) {
            Some(i) => 0 <= i < entries.len() && entries[i].0 == key && forall|j: int|
                i < j < entries.len() ==> #[trigger] entries[j].0 != key,
            None => forall|j: int| 0 <= j < entries.len() ==> #[trigger] entries[j].0 != key,
        },
    decreases entries.len(),
{
    if entries.len() > 0 && entries.last().0 != key {
        let rest = entries.drop_last();
        lemma_entry_index_last(rest, key);
        match entry_index(rest, key) {
            Some(i) => {
                assert(entries[i] == rest[i]);
                assert forall|j: int| i < j < entries.len() implies #[trigger] entries[j].0 != key by {
                    if j < rest.len() {
                        assert(entries[j] == rest[j]);
                    }
                }
            },
            None => {
                assert forall|j: int| 0 <= j < entries.len() implies #[trigger] entries[j].0 != key by {
                    if j < rest.len() {
                        assert(entries[j] == rest[j]);
                    }
                }
            },
        }
    }
}

/// The last entry of a key is what `entry_index` finds.
proof fn lemma_entry_index_is(entries: Seq<(Seq<char>, NbtView)>, key: Seq<char>, i: int)
    requires
        0 <= i < entries.len(),
        entries[i].0 == key,
        forall|j: int| i < j < entries.len() ==> #[trigger] entries[j].0 != key,
    ensures
        entry_index(entries, key) == Some(i),
{
    lemma_entry_index_last(entries, key);
    match entry_index(entries, key) {
        Some(k) => {
            if k < i {
                assert(entries[i].0 != key);
            }
            if k > i {
                assert(entries[k].0 != key);
            }
        },
        None => {
            assert(entries[i].0 != key);
        },
    }
}

proof fn lemma_put_entry_finds(entries: Seq<(Seq<char>, NbtView)>, key: Seq<char>, value: NbtView)
    ensures
        entry_index(put_entry(entries, key, value), key) matches Some(i) && put_entry(entries, key, value)[i]
            == (key, value),
{
    lemma_entry_index_last(entries, key);
    let put = put_entry(entries, key, value);
    match entry_index(entries, key) {
        Some(i) => {
            assert forall|j: int| i < j < put.len() implies #[trigger] put[j].0 != key by {
                assert(put[j] == entries[j]);
            }
            lemma_entry_index_is(put, key, i);
        },
        None => {
            lemma_entry_index_is(put, key, entries.len() as int);
        },
    }
}

/// Where setting the value at a path succeeds, reading the path gives the
/// value set.
pub proof fn lemma_set_then_get(tag: NbtView, nodes: Seq<PathNodeView>, value: NbtView)
    requires
        set_in_tag(tag, nodes, value) is Some,
    ensures
        get_in_tag(set_in_tag(tag, nodes, value)->0, nodes) == Some(value),
    decreases nodes.len(),
{
    let rest = nodes.drop_first();
    match nodes[0] {
        PathNodeView::Key(key) => match tag {
            NbtView::Compound(entries) => {
                if nodes.len() == 1 {
                    lemma_put_entry_finds(entries, key, value);
                    assert(rest.len() == 0);
                    assert(get_in_tag(value, rest) == Some(value));
                } else {
                    let i = entry_index(entries, key)->0;
                    lemma_entry_index_last(entries, key);
                    lemma_set_then_get(entries[i].1, rest, value);
                    let child = set_in_tag(entries[i].1, rest, value)->0;
                    let updated = entries.update(i, (key, child));
                    assert forall|j: int| i < j < updated.len() implies #[trigger] updated[j].0 != key by {
                        assert(updated[j] == entries[j]);
                    }
                    lemma_entry_index_is(updated, key, i);
                    assert(updated[i].1 == child);
                    assert(get_in_tag(NbtView::Compound(updated), nodes) == get_in_tag(child, rest));
                }
            },
            _ => {},
        },
        PathNodeView::Index(index) => match tag {
            NbtView::List(items) => {
                let i = resolved_index(index, items.len())->0;
                if nodes.len() == 1 {
                    assert(rest.len() == 0);
                    assert(get_in_tag(value, rest) == Some(value));
                    assert(items.update(i, value)[i] == value);
                } else {
                    lemma_set_then_get(items[i], rest, value);
                    let child = set_in_tag(items[i], rest, value)->0;
                    assert(items.update(i, child)[i] == child);
                }
            },
            _ => {},
        },
    }
}

/// Whether step `q0` selects another child of `tag` than step `p0`: other
/// keys, or list positions that resolve differently, or steps of different
/// kinds.
pub open spec fn step_differs(tag: NbtView, p0: PathNodeView, q0: PathNodeView) -> bool {
    match (p0, q0) {
        (PathNodeView::Key(a), PathNodeView::Key(b)) => a != b,
        (PathNodeView::Index(a), PathNodeView::Index(b)) => match tag {
            NbtView::List(items) => resolved_index(a, items.len()) != resolved_index(b, items.len()),
            _ => true,
        },
        _ => true,
    }
}

/// Path `q` leaves path `nodes` in `tag`: at some step, after following
/// the same children, it selects another child.
pub open spec fn off_path(tag: NbtView, nodes: Seq<PathNodeView>, q: Seq<PathNodeView>) -> bool
    decreases nodes.len(),
{
    if nodes.len() == 0 || q.len() == 0 {
        false
    } else if step_differs(tag, nodes[0], q[0]) {
        true
    } else {
        match get_in_tag(tag, seq![nodes[0]]) {
            Some(c) => off_path(c, nodes.drop_first(), q.drop_first()),
            None => false,
        }
    }
}

proof fn lemma_entry_index_update_other(
    entries: Seq<(Seq<char>, NbtView)>,
    i: int,
    e: (Seq<char>, NbtView),
    key: Seq<char>,
)
    requires
        0 <= i < entries.len(),
        e.0 == entries[i].0,
        key != e.0,
    ensures
        entry_index(entries.update(i, e), key) == entry_index(entries, key),
{
    let u = entries.update(i, e);
    lemma_entry_index_last(entries, key);
    lemma_entry_index_last(u, key);
    match entry_index(entries, key) {
        Some(k) => {
            assert forall|j: int| k < j < u.len() implies #[trigger] u[j].0 != key by {
                if j != i {
                    assert(u[j] == entries[j]);
                }
            }
            lemma_entry_index_is(u, key, k);
        },
        None => {
            match entry_index(u, key) {
                Some(k) => {
                    if k != i {
                        assert(u[k] == entries[k]);
                    }
                },
                None => {},
            }
        },
    }
}

proof fn lemma_entry_index_put_other(entries: Seq<(Seq<char>, NbtView)>, k: Seq<char>, value: NbtView, key: Seq<char>)
    requires
        key != k,
    ensures
        entry_index(put_entry(entries, k, value), key) == entry_index(entries, key),
        forall|j: int|
            0 <= j < entries.len() && entries[j].0 == key ==> #[trigger] put_entry(entries, k, value)[j] == entries[j],
{
    lemma_entry_index_last(entries, k);
    match entry_index(entries, k) {
        Some(i) => {
            lemma_entry_index_update_other(entries, i, (k, value), key);
        },
        None => {
            let p = entries.push((k, value));
            assert(p.drop_last() =~= entries);
        },
    }
}

/// Setting the value at a path leaves every value that another path
/// reaches, where that path leaves the set one at some step, as it was.
pub proof fn lemma_set_off_path(tag: NbtView, nodes: Seq<PathNodeView>, value: NbtView, q: Seq<PathNodeView>)
    requires
        set_in_tag(tag, nodes, value) is Some,
        off_path(tag, nodes, q),
    ensures
        get_in_tag(set_in_tag(tag, nodes, value)->0, q) == get_in_tag(tag, q),
    decreases nodes.len(),
{
    let new_tag = set_in_tag(tag, nodes, value)->0;
    let rest = nodes.drop_first();
    let qrest = q.drop_first();
    match nodes[0] {
        PathNodeView::Key(key) => match tag {
            NbtView::Compound(entries) => {
                let new_entries = new_tag->Compound_0;
                lemma_entry_index_last(entries, key);
                if step_differs(tag, nodes[0], q[0]) {
                    match q[0] {
                        PathNodeView::Key(k2) => {
                            lemma_entry_index_last(entries, k2);
                            if nodes.len() == 1 {
                                lemma_entry_index_put_other(entries, key, value, k2);
                            } else {
                                let i = entry_index(entries, key)->0;
                                let child = set_in_tag(entries[i].1, rest, value)->0;
                                lemma_entry_index_update_other(entries, i, (key, child), k2);
                            }
                        },
                        PathNodeView::Index(_) => {},
                    }
                } else {
                    let i = entry_index(entries, key)->0;
                    assert(get_in_tag(tag, seq![nodes[0]]) == Some(entries[i].1)) by {
                        let s1 = seq![nodes[0]];
                        assert(s1[0] == nodes[0]);
                        assert(s1.drop_first() =~= Seq::<PathNodeView>::empty());
                        assert(get_in_tag(entries[i].1, s1.drop_first()) == Some(entries[i].1));
                    }
                    assert(off_path(entries[i].1, rest, qrest));
                    assert(rest.len() > 0);
                    let child = set_in_tag(entries[i].1, rest, value)->0;
                    lemma_set_off_path(entries[i].1, rest, value, qrest);
                    let updated = entries.update(i, (key, child));
                    assert forall|j: int| i < j < updated.len() implies #[trigger] updated[j].0 != key by {
                        assert(updated[j] == entries[j]);
                    }
                    lemma_entry_index_is(updated, key, i);
                }
            },
            _ => {},
        },
        PathNodeView::Index(index) => match tag {
            NbtView::List(items) => {
                let i = resolved_index(index, items.len())->0;
                if step_differs(tag, nodes[0], q[0]) {
                    match q[0] {
                        PathNodeView::Index(b) => {
                            match resolved_index(b, items.len()) {
                                Some(j) => {
                                    if nodes.len() == 1 {
                                        assert(items.update(i, value)[j] == items[j]);
                                    } else {
                                        let child = set_in_tag(items[i], rest, value)->0;
                                        assert(items.update(i, child)[j] == items[j]);
                                    }
                                },
                                None => {},
                            }
                        },
                        PathNodeView::Key(_) => {},
                    }
                } else {
                    assert(get_in_tag(tag, seq![nodes[0]]) == Some(items[i])) by {
                        let s1 = seq![nodes[0]];
                        assert(s1[0] == nodes[0]);
                        assert(s1.drop_first() =~= Seq::<PathNodeView>::empty());
                        assert(get_in_tag(items[i], s1.drop_first()) == Some(items[i]));
                    }
                    assert(off_path(items[i], rest, qrest));
                    assert(rest.len() > 0);
                    let child = set_in_tag(items[i], rest, value)->0;
                    lemma_set_off_path(items[i], rest, value, qrest);
                    assert(items.update(i, child)[i] == child);
                }
            },
            _ => {},
        },
    }
}

/// Setting the value at a path of a root compound, as [`NbtPath::set`]
/// does: where it succeeds, the path reads the value set, and every path
/// that leaves it at some step reads as it did before.
pub proof fn lemma_root_set(root: Seq<(Seq<char>, NbtView)>, nodes: Seq<PathNodeView>, value: NbtView)
    ensures
        match set_in_root(root, nodes, value) {
            Some(entries) => {
                &&& get_in_tag(NbtView::Compound(entries), nodes) == Some(value)
                &&& forall|q: Seq<PathNodeView>|
                    off_path(NbtView::Compound(root), nodes, q) ==> #[trigger] get_in_tag(
                        NbtView::Compound(entries),
                        q,
                    ) == get_in_tag(NbtView::Compound(root), q)
            },
            None => true,
        },
{
    let tag = NbtView::Compound(root);
    if let Some(entries) = set_in_root(root, nodes, value) {
        assert(set_in_tag(tag, nodes, value) == Some(NbtView::Compound(entries)));
        lemma_set_then_get(tag, nodes, value);
        assert forall|q: Seq<PathNodeView>| off_path(tag, nodes, q) implies #[trigger] get_in_tag(
            NbtView::Compound(entries),
            q,
        ) == get_in_tag(tag, q) by {
            lemma_set_off_path(tag, nodes, value, q);
        }
    }
}

} // verus!
