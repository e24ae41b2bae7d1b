//! NBT values as the library holds them: compounds keep their entries in
//! order, each key once, and floating-point values are kept as their bits.
use vstd::prelude::*;

use crate::text::string_eq;

verus! {

/// An NBT value.
#[derive(Debug, PartialEq)]
pub enum NbtTag {
    End,
    Byte(i8),
    Short(i16),
    Int(i32),
    Long(i64),
    /// The bits of a 32-bit floating-point value.
    Float(u32),
    /// The bits of a 64-bit floating-point value.
    Double(u64),
    ByteArray(Vec<u8>),
    Str(String),
    List(Vec<NbtTag>),
    Compound(NbtCompound),
    IntArray(Vec<i32>),
    LongArray(Vec<i64>),
}

/// An NBT compound: named values.
#[derive(Debug, PartialEq)]
pub struct NbtCompound {
    pub child_tags: Vec<(String, NbtTag)>,
}

pub enum NbtView {
    End,
    Byte(i8),
    Short(i16),
    Int(i32),
    Long(i64),
    Float(u32),
    Double(u64),
    ByteArray(Seq<u8>),
    Str(Seq<char>),
    List(Seq<NbtView>),
    Compound(Seq<(Seq<char>, NbtView)>),
    IntArray(Seq<i32>),
    LongArray(Seq<i64>),
}

pub open spec fn nbt_view(t: NbtTag) -> NbtView
    decreases t, 0nat,
{
    match t {
        NbtTag::End => NbtView::End,
        NbtTag::Byte(v) => NbtView::Byte(v),
        NbtTag::Short(v) => NbtView::Short(v),
        NbtTag::Int(v) => NbtView::Int(v),
        NbtTag::Long(v) => NbtView::Long(v),
        NbtTag::Float(v) => NbtView::Float(v),
        NbtTag::Double(v) => NbtView::Double(v),
        NbtTag::ByteArray(v) => NbtView::ByteArray(v@),
        NbtTag::Str(s) => NbtView::Str(s@),
        NbtTag::List(items) => {
            proof {
                broadcast use vstd::std_specs::vec::axiom_vec_decreases_to_view;

                assert(decreases_to!(items => items@));
            }
            NbtView::List(nbt_views(items@))
        },
        NbtTag::Compound(c) => {
            proof {
                broadcast use vstd::std_specs::vec::axiom_vec_decreases_to_view;

                assert(decreases_to!(t => t->Compound_0));
                assert(decreases_to!(c => c.child_tags));
                assert(decreases_to!(c.child_tags => c.child_tags@));
            }
            NbtView::Compound(entry_views(c.child_tags@))
        },
        NbtTag::IntArray(v) => NbtView::IntArray(v@),
        NbtTag::LongArray(v) => NbtView::LongArray(v@),
    }
}

pub open spec fn nbt_views(items: Seq<NbtTag>) -> Seq<NbtView>
    decreases items, 1nat,
{
    if items.len() == 0 {
        Seq::empty()
    } else {
        proof {
            vstd::seq::axiom_seq_len_decreases(items, items.drop_first());
        }
        seq![nbt_view(items[0])] + nbt_views(items.drop_first())
    }
}

pub open spec fn entry_views(entries: Seq<(String, NbtTag)>) -> Seq<(Seq<char>, NbtView)>
    decreases entries, 1nat,
{
    if entries.len() == 0 {
        Seq::empty()
    } else {
        proof {
            vstd::seq::axiom_seq_len_decreases(entries, entries.drop_first());
            assert(decreases_to!(entries => entries[0]));
        }
        seq![(entries[0].0@, nbt_view(entries[0].1))] + entry_views(entries.drop_first())
    }
}

impl View for NbtTag {
    type V = NbtView;

    open spec fn view(&self) -> NbtView {
        nbt_view(*self)
    }
}

impl View for NbtCompound {
    type V = Seq<(Seq<char>, NbtView)>;

    open spec fn view(&self) -> Seq<(Seq<char>, NbtView)> {
        entry_views(self.child_tags@)
    }
}

pub proof fn lemma_nbt_views(items: Seq<NbtTag>)
    ensures
        nbt_views(items).len() == items.len(),
        forall|i: int| 0 <= i < items.len() ==> #[trigger] nbt_views(items)[i] == nbt_view(items[i]),
    decreases items.len(),
{
    if items.len() > 0 {
        lemma_nbt_views(items.drop_first());
        assert forall|i: int| 0 <= i < items.len() implies #[trigger] nbt_views(items)[i] == nbt_view(items[i]) by {
            if i > 0 {
                assert(nbt_views(items)[i] == nbt_views(items.drop_first())[i - 1]);
                assert(items.drop_first()[i - 1] == items[i]);
            }
        }
    }
}

pub proof fn lemma_entry_views(entries: Seq<(String, NbtTag)>)
    ensures
        entry_views(entries).len() == entries.len(),
        forall|i: int|
            0 <= i < entries.len() ==> #[trigger] entry_views(entries)[i] == (entries[i].0@, nbt_view(entries[i].1)),
    decreases entries.len(),
{
    if entries.len() > 0 {
        lemma_entry_views(entries.drop_first());
        assert forall|i: int| 0 <= i < entries.len() implies #[trigger] entry_views(entries)[i] == (
            entries[i].0@,
            nbt_view(entries[i].1),
        ) by {
            if i > 0 {
                assert(entry_views(entries)[i] == entry_views(entries.drop_first())[i - 1]);
                assert(entries.drop_first()[i - 1] == entries[i]);
            }
        }
    }
}

/// Replacing one value replaces its view.
pub proof fn lemma_nbt_views_update(items: Seq<NbtTag>, j: int, x: NbtTag)
    requires
        0 <= j < items.len(),
    ensures
        nbt_views(items.update(j, x)) == nbt_views(items).update(j, nbt_view(x)),
{
    lemma_nbt_views(items);
    lemma_nbt_views(items.update(j, x));
    assert(nbt_views(items.update(j, x)) =~= nbt_views(items).update(j, nbt_view(x)));
}

/// Replacing one entry replaces its view.
pub proof fn lemma_entry_views_update(entries: Seq<(String, NbtTag)>, j: int, x: (String, NbtTag))
    requires
        0 <= j < entries.len(),
    ensures
        entry_views(entries.update(j, x)) == entry_views(entries).update(j, (x.0@, nbt_view(x.1))),
{
    lemma_entry_views(entries);
    lemma_entry_views(entries.update(j, x));
    assert(entry_views(entries.update(j, x)) =~= entry_views(entries).update(j, (x.0@, nbt_view(x.1))));
}

/// Appending an entry appends its view.
pub proof fn lemma_entry_views_push(entries: Seq<(String, NbtTag)>, x: (String, NbtTag))
    ensures
        entry_views(entries.push(x)) == entry_views(entries).push((x.0@, nbt_view(x.1))),
{
    lemma_entry_views(entries);
    lemma_entry_views(entries.push(x));
    assert(entry_views(entries.push(x)) =~= entry_views(entries).push((x.0@, nbt_view(x.1))));
}

/// The position of the entry named `key`, if any.
pub open spec fn entry_index(entries: Seq<(Seq<char>, NbtView)>, key: Seq<char>) -> Option<int>
    decreases entries.len(),
{
    if entries.len() == 0 {
        None
    } else if entries.last().0 == key {
        Some(entries.len() - 1)
    } else {
        entry_index(entries.drop_last(), key)
    }
}

/// The entries with `key` set to `value`: its entry replaced, or a new one
/// at the end.
pub open spec fn put_entry(entries: Seq<(Seq<char>, NbtView)>, key: Seq<char>, value: NbtView) -> Seq<
    (Seq<char>, NbtView),
> {
    match entry_index(entries, key) {
        Some(i) => entries.update(i, (key, value)),
        None => entries.push((key, value)),
    }
}

pub proof fn lemma_entry_index(entries: Seq<(Seq<char>, NbtView)>, key: Seq<char>)
    ensures
        match entry_index(entries, key) {
            Some(i) => 0 <= i < entries.len() && entries[i].0 == key,
            None => forall|i: int| 0 <= i < entries.len() ==> #[trigger] entries[i].0 != key,
        },
    decreases entries.len(),
{
    if entries.len() > 0 && entries.last().0 != key {
        let rest = entries.drop_last();
        lemma_entry_index(rest, key);
        match entry_index(rest, key) {
            Some(i) => {
                assert(rest[i] == entries[i]);
            },
            None => {
                assert forall|i: int| 0 <= i < entries.len() implies #[trigger] entries[i].0 != key by {
                    if i < entries.len() - 1 {
                        assert(rest[i] == entries[i]);
                    }
                }
            },
        }
    }
}

impl NbtCompound {
    /// An empty compound.
    pub fn new() -> (r: NbtCompound)
        ensures
            r@ == Seq::<(Seq<char>, NbtView)>::empty(),
    {
        NbtCompound { child_tags: Vec::new() }
    }

    /// The position of the entry named `key`, if any.
    pub fn find(&self, key: &String) -> (r: Option<usize>)
        ensures
            match r {
                Some(i) => entry_index(self@, key@) == Some(i as int),
                None => entry_index(self@, key@) is None,
            },
    {
        proof {
            lemma_entry_views(self.child_tags@);
        }
        let mut i = self.child_tags.len();
        assert(self@.take(i as int) =~= self@);
        while i > 0
            invariant
                i <= self.child_tags@.len(),
                entry_views(self.child_tags@).len() == self.child_tags@.len(),
                forall|j: int|
                    0 <= j < self.child_tags@.len() ==> #[trigger] entry_views(self.child_tags@)[j] == (
                        self.child_tags@[j].0@,
                        nbt_view(self.child_tags@[j].1),
                    ),
                entry_index(self@, key@) == entry_index(self@.take(i as int), key@),
            decreases i,
        {
            let ghost prefix = self@.take(i as int);
            proof {
                assert(prefix.last() == self@[i - 1]);
                assert(prefix.drop_last() =~= self@.take(i - 1));
            }
            if string_eq(&self.child_tags[i - 1].0, key) {
                return Some(i - 1);
            }
            i = i - 1;
        }
        None
    }

    /// The value named `key`, if any.
    pub fn get(&self, key: &String) -> (r: Option<&NbtTag>)
        ensures
            match r {
                Some(t) => entry_index(self@, key@) matches Some(i) && self@[i].1 == t@,
                None => entry_index(self@, key@) is None,
            },
    {
        proof {
            lemma_entry_views(self.child_tags@);
            lemma_entry_index(self@, key@);
        }
        match self.find(key) {
            Some(i) => Some(&self.child_tags[i].1),
            None => None,
        }
    }

    /// Sets the value named `key`: its entry is replaced, or a new entry is
    /// added at the end.
    pub fn put(&mut self, key: String, value: NbtTag)
        ensures
            final(self)@ == put_entry(old(self)@, key@, value@),
    {
        proof {
            lemma_entry_views(self.child_tags@);
            lemma_entry_index(self@, key@);
        }
        match self.find(&key) {
            Some(i) => {
                let ghost before = self.child_tags@;
                let ghost entry = (key, value);
                self.child_tags.set(i, (key, value));
                proof {
                    lemma_entry_views_update(before, i as int, entry);
                }
            },
            None => {
                let ghost before = self.child_tags@;
                let ghost entry = (key, value);
                self.child_tags.push((key, value));
                proof {
                    lemma_entry_views_push(before, entry);
                }
            },
        }
    }
}

} // verus!
