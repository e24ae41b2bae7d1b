//! The biome predicate argument of commands: a biome, or `#` and a biome
//! tag.
use vstd::prelude::*;

use crate::data_pack::{tag_holds, DataPackManager};
use crate::identifier::{id_text, identifier_end, parse_identifier, Identifier};
use crate::reader::{next_char, CommandSyntaxError, StringReader};

verus! {

/// A biome by numeric id, or a biome tag.
#[derive(Debug, PartialEq, Eq)]
pub enum BiomePredicate {
    Biome(u8),
    Tag(Identifier),
}

/// The id of the biome named `name` in `biomes`, the first entry of that
/// name.
pub open spec fn biome_id(biomes: Seq<(String, u8)>, name: Seq<char>) -> Option<u8>
    decreases biomes.len(),
{
    if biomes.len() == 0 {
        None
    } else if biomes[0].0@ == name {
        Some(biomes[0].1)
    } else {
        biome_id(biomes.drop_first(), name)
    }
}

fn find_biome(biomes: &Vec<(String, u8)>, name: &String) -> (r: Option<u8>)
    ensures
        r == biome_id(biomes@, name@),
{
    let mut i: usize = 0;
    assert(biomes@.skip(0) =~= biomes@);
    while i < biomes.len()
        invariant
            i <= biomes@.len(),
            biome_id(biomes@, name@) == biome_id(biomes@.skip(i as int), name@),
        decreases biomes@.len() - i,
    {
        let ghost rest = biomes@.skip(i as int);
        proof {
            assert(rest[0] == biomes@[i as int]);
            assert(rest.drop_first() =~= biomes@.skip(i + 1));
        }
        if crate::text::string_eq(&biomes[i].0, name) {
            return Some(biomes[i].1);
        }
        i = i + 1;
    }
    None
}

pub struct BiomePredicateArgumentType;

impl BiomePredicateArgumentType {
    /// Reads a biome predicate: `#` and a tag identifier, or the identifier
    /// of a biome, which is looked up by its path in `biomes`.
    pub fn parse(&self, reader: &mut StringReader, biomes: &Vec<(String, u8)>) -> (r: Result<
        BiomePredicate,
        CommandSyntaxError,
    >)
        ensures
            final(reader).text() == old(reader).text(),
            ({
                let text = old(reader).text();
                let tagged = next_char(text, old(reader).pos()) == Some('#');
                let start = if tagged {
                    old(reader).pos() + 1
                } else {
                    old(reader).pos()
                };
                let end = identifier_end(text, start);
                &&& final(reader).pos() == end
                &&& match parse_identifier(text.subrange(start, end)) {
                    None => r matches Err(CommandSyntaxError::InvalidIdentifier(t)) && t@ == text.subrange(start, end),
                    Some(id) => if tagged {
                        r matches Ok(BiomePredicate::Tag(t)) && t@ == id
                    } else {
                        match biome_id(biomes@, id.path) {
                            Some(b) => r == Ok::<BiomePredicate, CommandSyntaxError>(BiomePredicate::Biome(b)),
                            None => r matches Err(CommandSyntaxError::InvalidResource(t)) && t@ == id_text(id),
                        }
                    },
                }
            }),
    {
        let tagged = reader.peek() == Some('#');
        if tagged {
            reader.skip();
        }
        let id = match Identifier::from_reader(reader) {
            Ok(id) => id,
            Err(e) => {
                return Err(e);
            },
        };
        if tagged {
            Ok(BiomePredicate::Tag(id))
        } else {
            match find_biome(biomes, &id.path) {
                Some(b) => Ok(BiomePredicate::Biome(b)),
                None => Err(CommandSyntaxError::InvalidResource(id.to_string())),
            }
        }
    }
}

impl BiomePredicate {
    /// Whether biome `biome` (by numeric id) satisfies the predicate: it is
    /// the biome named, or it belongs to the tag in `data_packs`.
    pub fn test(&self, biome: u8, data_packs: &DataPackManager) -> (r: bool)
        ensures
            r == match self {
                BiomePredicate::Biome(expected) => *expected == biome,
                BiomePredicate::Tag(id) => tag_holds(data_packs@.biome_tags, id@, biome as u16, Seq::empty()),
            },
    {
        match self {
            BiomePredicate::Biome(expected) => *expected == biome,
            BiomePredicate::Tag(id) => data_packs.biome_is_tagged(id, biome),
        }
    }
}

} // verus!
