//! Command arguments that read a single word: objective criteria, score
//! holders and function references.
use vstd::prelude::*;

use crate::identifier::{identifier_end, parse_identifier, Identifier, IdentifierView};
use crate::order::{lemma_chars_lt_irreflexive, sorted_strictly};
use crate::reader::{next_char, space_from, CommandSyntaxError, StringReader};
use crate::scoreboard::{holds_score, Scoreboard};
use crate::team::names_view;

verus! {

/// Reads an objective criterion, whose modern statistic form contains a colon.
#[derive(Debug, Clone, Copy, PartialEq, Eq)]
pub struct ObjectiveCriteriaArgumentType;

impl ObjectiveCriteriaArgumentType {
    /// Reads the criterion: the text up to the next space.
    pub fn parse(&self, reader: &mut StringReader) -> (r: Result<String, CommandSyntaxError>)
        ensures
            final(reader).text() == old(reader).text(),
            final(reader).pos() == space_from(old(reader).text(), old(reader).pos()),
            r matches Ok(c) && c@ == old(reader).text().subrange(
                old(reader).pos(),
                final(reader).pos(),
            ),
    {
        let start = reader.cursor();
        reader.read_until_space();
        let end = reader.cursor();
        Ok(reader.slice(start, end))
    }
}

/// Who a score belongs to, as written in a command.
#[derive(Debug, PartialEq, Eq)]
pub enum ScoreHolder {
    /// A player or fake player name.
    Name(String),
    /// An entity selector such as `@e[type=cow]`; its text, to be resolved
    /// against the world's entities.
    Selector(String),
    /// `*`: every holder the scoreboard tracks.
    Wildcard,
}

/// Reads one or several score holders.
#[derive(Debug, Clone, Copy, PartialEq, Eq)]
pub enum ScoreHolderArgumentType {
    Single,
    Multiple,
}

impl ScoreHolderArgumentType {
    /// Whether more than one holder may be named.
    pub fn allows_multiple(self) -> (r: bool)
        ensures
            r == (self == ScoreHolderArgumentType::Multiple),
    {
        match self {
            ScoreHolderArgumentType::Multiple => true,
            ScoreHolderArgumentType::Single => false,
        }
    }

    /// Reads a holder: a word starting with `@` is a selector, `*` the
    /// wildcard, any other word a name. The word ends at the next space.
    pub fn parse(&self, reader: &mut StringReader) -> (r: Result<ScoreHolder, CommandSyntaxError>)
        ensures
            final(reader).text() == old(reader).text(),
            final(reader).pos() == space_from(old(reader).text(), old(reader).pos()),
            ({
                let word = old(reader).text().subrange(old(reader).pos(), final(reader).pos());
                &&& next_char(old(reader).text(), old(reader).pos()) == Some('@') ==> (r matches Ok(
                    ScoreHolder::Selector(s),
                ) && s@ == word)
                &&& next_char(old(reader).text(), old(reader).pos()) != Some('@') && word
                    == seq!['*'] ==> r == Ok::<ScoreHolder, CommandSyntaxError>(
                    ScoreHolder::Wildcard,
                )
                &&& next_char(old(reader).text(), old(reader).pos()) != Some('@') && word
                    != seq!['*'] ==> (r matches Ok(ScoreHolder::Name(n)) && n@ == word)
            }),
    {
        let selector = reader.peek() == Some('@');
        let start = reader.cursor();
        reader.read_until_space();
        let word = reader.slice(start, reader.cursor());
        proof {
            reveal_strlit("*");
            assert("*"@ =~= seq!['*']);
        }
        if selector {
            Ok(ScoreHolder::Selector(word))
        } else if crate::text::str_eq(word.as_str(), "*") {
            Ok(ScoreHolder::Wildcard)
        } else {
            Ok(ScoreHolder::Name(word))
        }
    }
}

impl ScoreHolderArgumentType {
    /// The names that `holder` stands for: a name itself; the wildcard every
    /// holder that the scoreboard tracks, in order; a selector the names of
    /// the entities it found, `selected`, which the caller finds in the world
    /// (and which is read for a selector only). A selector that found no
    /// entity is an error.
    pub fn get_score_holders(holder: &ScoreHolder, scoreboard: &Scoreboard, selected: &Vec<String>) -> (r: Result<
        Vec<String>,
        CommandSyntaxError,
    >)
        ensures
            match holder {
                ScoreHolder::Name(n) => r matches Ok(v) && names_view(v@) == seq![n@],
                ScoreHolder::Wildcard => r matches Ok(v) && sorted_strictly(names_view(v@)) && forall|n: Seq<char>|
                    #[trigger] names_view(v@).contains(n) <==> holds_score(scoreboard@, n),
                ScoreHolder::Selector(_) => if selected@.len() == 0 {
                    r == Err::<Vec<String>, CommandSyntaxError>(CommandSyntaxError::NoEntities)
                } else {
                    r matches Ok(v) && names_view(v@) == names_view(selected@)
                },
            },
    {
        match holder {
            ScoreHolder::Name(n) => {
                let v = vec![n.clone()];
                proof {
                    assert(names_view(v@) =~= seq![n@]);
                }
                Ok(v)
            },
            ScoreHolder::Wildcard => Ok(scoreboard.get_tracked_players()),
            ScoreHolder::Selector(_) => {
                if selected.len() == 0 {
                    return Err(CommandSyntaxError::NoEntities);
                }
                let mut v: Vec<String> = Vec::new();
                let mut i: usize = 0;
                while i < selected.len()
                    invariant
                        i <= selected@.len(),
                        names_view(v@) == names_view(selected@).take(i as int),
                    decreases selected@.len() - i,
                {
                    let ghost before = names_view(v@);
                    v.push(selected[i].clone());
                    proof {
                        assert(names_view(v@) =~= before.push(selected@[i as int]@));
                        assert(names_view(selected@).take(i + 1) =~= names_view(selected@).take(i as int).push(
                            selected@[i as int]@,
                        ));
                    }
                    i = i + 1;
                }
                proof {
                    assert(names_view(selected@).take(selected@.len() as int) =~= names_view(selected@));
                }
                Ok(v)
            },
        }
    }

    /// The one name that `holder` stands for (see
    /// [`Self::get_score_holders`]): an error when it stands for none, or
    /// for more than one.
    pub fn get_score_holder(holder: &ScoreHolder, scoreboard: &Scoreboard, selected: &Vec<String>) -> (r: Result<
        String,
        CommandSyntaxError,
    >)
        ensures
            match holder {
                ScoreHolder::Name(n) => r matches Ok(name) && name@ == n@,
                ScoreHolder::Wildcard => match r {
                    Ok(name) => holds_score(scoreboard@, name@) && forall|m: Seq<char>|
                        #[trigger] holds_score(scoreboard@, m) ==> m == name@,
                    Err(e) => (e == CommandSyntaxError::NoEntities && forall|m: Seq<char>|
                        !#[trigger] holds_score(scoreboard@, m)) || (e == CommandSyntaxError::NotSingleEntity
                        && exists|a: Seq<char>, b: Seq<char>|
                        a != b && #[trigger] holds_score(scoreboard@, a) && #[trigger] holds_score(scoreboard@, b)),
                },
                ScoreHolder::Selector(_) => {
                    &&& selected@.len() == 0 ==> r == Err::<String, CommandSyntaxError>(CommandSyntaxError::NoEntities)
                    &&& selected@.len() == 1 ==> (r matches Ok(name) && name@ == selected@[0]@)
                    &&& selected@.len() > 1 ==> r == Err::<String, CommandSyntaxError>(
                        CommandSyntaxError::NotSingleEntity,
                    )
                },
            },
    {
        let holders = Self::get_score_holders(holder, scoreboard, selected)?;
        let ghost names = names_view(holders@);
        proof {
            assert(names.len() == holders@.len());
        }
        if holders.len() == 0 {
            proof {
                if holder is Wildcard {
                    assert forall|m: Seq<char>| !#[trigger] holds_score(scoreboard@, m) by {
                        if holds_score(scoreboard@, m) {
                            assert(names.contains(m));
                        }
                    }
                }
            }
            return Err(CommandSyntaxError::NoEntities);
        }
        if holders.len() > 1 {
            proof {
                if holder is Wildcard {
                    lemma_chars_lt_irreflexive(names[0]);
                    assert(names.contains(names[0]));
                    assert(names.contains(names[1]));
                    assert(holds_score(scoreboard@, names[0]) && holds_score(scoreboard@, names[1]));
                }
            }
            return Err(CommandSyntaxError::NotSingleEntity);
        }
        let name = holders[0].clone();
        proof {
            assert(names[0] == holders@[0]@);
            if holder is Wildcard {
                assert(names.contains(names[0]));
                assert forall|m: Seq<char>| #[trigger] holds_score(scoreboard@, m) implies m == name@ by {
                    assert(names.contains(m));
                }
            }
        }
        Ok(name)
    }
}

/// A function or function tag named in a command.
#[derive(Debug, PartialEq, Eq)]
pub struct FunctionReference {
    pub id: Identifier,
    pub is_tag: bool,
}

/// Reads a function reference: `#` marks a tag.
pub struct FunctionArgumentType;

impl FunctionArgumentType {
    /// Reads an optional `#` and an identifier.
    pub fn parse(&self, reader: &mut StringReader) -> (r: Result<FunctionReference, CommandSyntaxError>)
        ensures
            final(reader).text() == old(reader).text(),
            ({
                let s = old(reader).text();
                let is_tag = next_char(s, old(reader).pos()) == Some('#');
                let from = if is_tag {
                    old(reader).pos() + 1
                } else {
                    old(reader).pos()
                };
                let word = s.subrange(from, identifier_end(s, from));
                &&& final(reader).pos() == identifier_end(s, from)
                &&& match parse_identifier(word) {
                    Some(id) => r matches Ok(f) && f.id@ == id && f.is_tag == is_tag,
                    None => r matches Err(CommandSyntaxError::InvalidIdentifier(t)) && t@ == word,
                }
            }),
    {
        let is_tag = reader.peek() == Some('#');
        if is_tag {
            reader.skip();
        }
        match Identifier::from_reader(reader) {
            Ok(id) => Ok(FunctionReference { id, is_tag }),
            Err(e) => Err(e),
        }
    }
}

} // verus!
