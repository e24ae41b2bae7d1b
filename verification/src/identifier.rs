//! Namespaced resource identifiers such as `minecraft:stone`.
use vstd::prelude::*;

use crate::reader::{CommandSyntaxError, StringReader};
use crate::text::{chars_of, find_char, owned, string_of};

verus! {

/// A resource identifier: a namespace and a path.
#[derive(Debug, PartialEq, Eq)]
pub struct Identifier {
    pub namespace: String,
    pub path: String,
}

pub struct IdentifierView {
    pub namespace: Seq<char>,
    pub path: Seq<char>,
}

impl View for Identifier {
    type V = IdentifierView;

    open spec fn view(&self) -> IdentifierView {
        IdentifierView { namespace: self.namespace@, path: self.path@ }
    }
}

/// An identifier as written, `namespace:path`.
pub open spec fn id_text(v: IdentifierView) -> Seq<char> {
    v.namespace + seq![':'] + v.path
}

/// The namespace of identifiers written without one.
pub open spec fn default_namespace() -> Seq<char> {
    "minecraft"@
}

/// A character allowed in a namespace: `a-z`, `0-9`, `_`, `-` and `.`.
pub open spec fn namespace_char(c: char) -> bool {
    ('a' <= c <= 'z') || ('0' <= c <= '9') || c == '_' || c == '-' || c == '.'
}

/// A character allowed in a path: those of a namespace, and `/`.
pub open spec fn path_char(c: char) -> bool {
    namespace_char(c) || c == '/'
}

/// A character that can be part of an identifier as written.
pub open spec fn identifier_char(c: char) -> bool {
    path_char(c) || c == ':'
}

pub open spec fn all_namespace_chars(s: Seq<char>) -> bool {
    forall|i: int| 0 <= i < s.len() ==> namespace_char(#[trigger] s[i])
}

pub open spec fn all_path_chars(s: Seq<char>) -> bool {
    forall|i: int| 0 <= i < s.len() ==> path_char(#[trigger] s[i])
}

/// The identifier that `s` denotes: text before the first `:` is the
/// namespace (`minecraft` when there is no `:` or nothing before it), the rest
/// the path; `None` when either holds a character it may not.
pub open spec fn parse_identifier(s: Seq<char>) -> Option<IdentifierView> {
    let (namespace, path) = match crate::text::first_index(s, ':') {
        Some(i) => (
            if i == 0 {
                default_namespace()
            } else {
                s.subrange(0, i)
            },
            s.subrange(i + 1, s.len() as int),
        ),
        None => (default_namespace(), s),
    };
    if all_namespace_chars(namespace) && all_path_chars(path) {
        Some(IdentifierView { namespace, path })
    } else {
        None
    }
}

fn namespace_char_exec(c: char) -> (r: bool)
    ensures
        r == namespace_char(c),
{
    ('a' <= c && c <= 'z') || ('0' <= c && c <= '9') || c == '_' || c == '-' || c == '.'
}

fn all_allowed(v: &[char], from: usize, to: usize, slash: bool) -> (r: bool)
    requires
        from <= to <= v@.len(),
    ensures
        r == (forall|i: int|
            from <= i < to ==> namespace_char(#[trigger] v@[i]) || (slash && v@[i] == '/')),
{
    let mut i = from;
    while i < to
        invariant
            from <= i <= to <= v@.len(),
            forall|k: int| from <= k < i ==> namespace_char(#[trigger] v@[k]) || (slash && v@[k] == '/'),
        decreases to - i,
    {
        if !(namespace_char_exec(v[i]) || (slash && v[i] == '/')) {
            return false;
        }
        i = i + 1;
    }
    true
}

impl Identifier {
    /// Parses `text` as an identifier; see [`parse_identifier`].
    pub fn parse(text: &str) -> (r: Option<Identifier>)
        ensures
            match r {
                Some(id) => parse_identifier(text@) == Some(id@),
                None => parse_identifier(text@) is None,
            },
    {
        let v = chars_of(text);
        let n = v.len();
        let (ns_from, ns_to, path_from, default_ns) = match find_char(v.as_slice(), ':') {
            Some(i) => (0, i, i + 1, i == 0),
            None => (0, 0, 0, true),
        };
        let ns_ok = default_ns || all_allowed(v.as_slice(), ns_from, ns_to, false);
        let path_ok = all_allowed(v.as_slice(), path_from, n, true);
        proof {
            let s = text@;
            let ns = if default_ns {
                default_namespace()
            } else {
                s.subrange(ns_from as int, ns_to as int)
            };
            let path = s.subrange(path_from as int, n as int);
            reveal_strlit("minecraft");
            assert(ns_ok == all_namespace_chars(ns)) by {
                if !default_ns {
                    assert forall|i: int| 0 <= i < ns.len() implies (namespace_char(#[trigger] ns[i])
                        <==> namespace_char(v@[ns_from + i])) by {}
                    if ns_ok {
                        assert forall|i: int| 0 <= i < ns.len() implies namespace_char(
                            #[trigger] ns[i],
                        ) by {
                            assert(namespace_char(v@[ns_from + i]) || (false && v@[ns_from + i] == '/'));
                        }
                    } else {
                        let k = choose|k: int|
                            ns_from <= k < ns_to && !(namespace_char(#[trigger] v@[k]) || (false
                                && v@[k] == '/'));
                        assert(!namespace_char(ns[k - ns_from]));
                    }
                } else {
                    assert forall|i: int| 0 <= i < ns.len() implies namespace_char(#[trigger] ns[i]) by {}
                }
            }
            assert(path_ok == all_path_chars(path)) by {
                if path_ok {
                    assert forall|i: int| 0 <= i < path.len() implies path_char(#[trigger] path[i]) by {
                        assert(namespace_char(v@[path_from + i]) || (true && v@[path_from + i] == '/'));
                    }
                } else {
                    let k = choose|k: int|
                        path_from <= k < n && !(namespace_char(#[trigger] v@[k]) || (true && v@[k]
                            == '/'));
                    assert(!path_char(path[k - path_from]));
                }
            }
            if path_from == 0 {
                assert(path =~= s);
            }
        }
        if ns_ok && path_ok {
            let namespace = if default_ns {
                owned("minecraft")
            } else {
                string_of(v.as_slice(), ns_from, ns_to)
            };
            let path = string_of(v.as_slice(), path_from, n);
            Some(Identifier { namespace, path })
        } else {
            None
        }
    }

    /// Reads an identifier at the reader's cursor: the longest run of
    /// identifier characters, which must parse.
    pub fn from_reader(reader: &mut StringReader) -> (r: Result<Identifier, CommandSyntaxError>)
        ensures
            final(reader).text() == old(reader).text(),
            final(reader).pos() == identifier_end(old(reader).text(), old(reader).pos()),
            match r {
                Ok(id) => parse_identifier(
                    old(reader).text().subrange(old(reader).pos(), final(reader).pos()),
                ) == Some(id@),
                Err(e) => parse_identifier(
                    old(reader).text().subrange(old(reader).pos(), final(reader).pos()),
                ) is None && (e matches CommandSyntaxError::InvalidIdentifier(t) && t@
                    == old(reader).text().subrange(old(reader).pos(), final(reader).pos())),
            },
    {
        let start = reader.cursor();
        let ghost s = reader.text();
        loop
            invariant
                reader.text() == s,
                start <= reader.pos() <= s.len(),
                forall|k: int| start <= k < reader.pos() ==> identifier_char(#[trigger] s[k]),
            ensures
                reader.text() == s,
                start <= reader.pos() <= s.len(),
                forall|k: int| start <= k < reader.pos() ==> identifier_char(#[trigger] s[k]),
                reader.pos() == s.len() || !identifier_char(s[reader.pos()]),
            decreases s.len() - reader.pos(),
        {
            match reader.peek() {
                Some(c) => {
                    if namespace_char_exec(c) || c == '/' || c == ':' {
                        reader.skip();
                    } else {
                        break;
                    }
                },
                None => {
                    break;
                },
            }
        }
        proof {
            lemma_identifier_end(s, start as int, reader.pos());
        }
        let raw = reader.slice(start, reader.cursor());
        match Identifier::parse(raw.as_str()) {
            Some(id) => Ok(id),
            None => Err(CommandSyntaxError::InvalidIdentifier(raw)),
        }
    }

    /// The identifier with the given parts, when both hold only the
    /// characters they may.
    pub fn new(namespace: String, path: String) -> (r: Option<Identifier>)
        ensures
            match r {
                Some(id) => all_namespace_chars(namespace@) && all_path_chars(path@) && id@
                    == (IdentifierView { namespace: namespace@, path: path@ }),
                None => !(all_namespace_chars(namespace@) && all_path_chars(path@)),
            },
    {
        let ns = chars_of(namespace.as_str());
        let p = chars_of(path.as_str());
        let ns_ok = all_allowed(ns.as_slice(), 0, ns.len(), false);
        let path_ok = all_allowed(p.as_slice(), 0, p.len(), true);
        proof {
            if !ns_ok {
                let k = choose|k: int| 0 <= k < ns@.len() && !(namespace_char(#[trigger] ns@[k]) || (false && ns@[k] == '/'));
                assert(!namespace_char(namespace@[k]));
            }
            if !path_ok {
                let k = choose|k: int| 0 <= k < p@.len() && !(namespace_char(#[trigger] p@[k]) || (true && p@[k] == '/'));
                assert(!path_char(path@[k]));
            }
            if path_ok {
                assert forall|i: int| 0 <= i < path@.len() implies path_char(#[trigger] path@[i]) by {
                    assert(namespace_char(p@[i]) || (true && p@[i] == '/'));
                }
            }
        }
        if ns_ok && path_ok {
            Some(Identifier { namespace, path })
        } else {
            None
        }
    }

    /// An identifier equal to this one.
    pub fn copy(&self) -> (r: Identifier)
        ensures
            r@ == self@,
    {
        Identifier { namespace: self.namespace.clone(), path: self.path.clone() }
    }

    /// The identifier written `namespace:path`.
    pub fn to_string(&self) -> (r: String)
        ensures
            r@ == id_text(self@),
    {
        let mut r = self.namespace.clone();
        crate::text::push_str(&mut r, ":");
        crate::text::push_str(&mut r, self.path.as_str());
        proof {
            reveal_strlit(":");
        }
        r
    }
}

/// The end of the run of identifier characters that starts at `i`.
pub open spec fn identifier_end(s: Seq<char>, i: int) -> int
    decreases s.len() - i,
{
    if i < 0 {
        0
    } else if i >= s.len() || !identifier_char(s[i]) {
        if i > s.len() {
            s.len() as int
        } else {
            i
        }
    } else {
        identifier_end(s, i + 1)
    }
}

pub proof fn lemma_identifier_end(s: Seq<char>, i: int, j: int)
    requires
        0 <= i <= j <= s.len(),
        forall|k: int| i <= k < j ==> identifier_char(#[trigger] s[k]),
        j == s.len() || !identifier_char(s[j]),
    ensures
        identifier_end(s, i) == j,
    decreases j - i,
{
    if i < j {
        lemma_identifier_end(s, i + 1, j);
    }
}

} // verus!
