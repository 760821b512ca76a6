//! The rename table: an append-only mapping from original identifier
//! spellings to the ordinals assigned to them, scoped to one run.

use vstd::prelude::*;

verus! {

/// The mapping held by a sequence of spelling/ordinal entries; a later entry
/// for the same spelling would win, though the table never adds one.
pub closed spec fn map_of(entries: Seq<(Vec<char>, usize)>) -> Map<Seq<char>, nat>
    decreases entries.len(),
{
    if entries.len() == 0 {
        Map::empty()
    } else {
        map_of(entries.drop_last()).insert(entries.last().0@, entries.last().1 as nat)
    }
}

pub proof fn lemma_map_of_finite(entries: Seq<(Vec<char>, usize)>)
    ensures
        map_of(entries).dom().finite(),
        map_of(entries).dom().len() <= entries.len(),
    decreases entries.len(),
{
    if entries.len() > 0 {
        lemma_map_of_finite(entries.drop_last());
    }
}

/// The rename table of one run: append-only, never removed from.
pub struct RenameTable {
    entries: Vec<(Vec<char>, usize)>,
}

impl View for RenameTable {
    type V = Map<Seq<char>, nat>;

    closed spec fn view(&self) -> Map<Seq<char>, nat> {
        map_of(self.entries@)
    }
}

fn get_prefix(entries: &Vec<(Vec<char>, usize)>, n: usize, key: &Vec<char>) -> (r: Option<usize>)
    requires
        n <= entries@.len(),
    ensures
        match r {
            Some(o) => map_of(entries@.take(n as int)).contains_key(key@) && map_of(
                entries@.take(n as int),
            )[key@] == o as nat,
            None => !map_of(entries@.take(n as int)).contains_key(key@),
        },
    decreases n,
{
    if n == 0 {
        proof {
            assert(entries@.take(0) =~= Seq::empty());
        }
        None
    } else {
        proof {
            assert(entries@.take(n as int).drop_last() =~= entries@.take(n as int - 1));
            assert(entries@.take(n as int).last() == entries@[n as int - 1]);
        }
        if crate::reserved::chars_eq(&entries[n - 1].0, key) {
            Some(entries[n - 1].1)
        } else {
            get_prefix(entries, n - 1, key)
        }
    }
}

impl RenameTable {
    /// An empty rename table.
    pub fn new() -> (r: RenameTable)
        ensures
            r@ == Map::<Seq<char>, nat>::empty(),
    {
        RenameTable { entries: Vec::new() }
    }

    /// The ordinal assigned to `key`, if one has been.
    pub fn get(&self, key: &Vec<char>) -> (r: Option<usize>)
        ensures
            match r {
                Some(o) => self@.contains_key(key@) && self@[key@] == o as nat,
                None => !self@.contains_key(key@),
            },
    {
        proof {
            assert(self.entries@.take(self.entries@.len() as int) =~= self.entries@);
        }
        get_prefix(&self.entries, self.entries.len(), key)
    }

    /// Records the ordinal assigned to a spelling.
    pub fn insert(&mut self, key: Vec<char>, ord: usize)
        ensures
            final(self)@ == old(self)@.insert(key@, ord as nat),
            final(self)@.dom().len() <= old(self)@.dom().len() + 1,
    {
        proof {
            lemma_map_of_finite(self.entries@);
            assert(self.entries@.push((key, ord)).drop_last() =~= self.entries@);
        }
        let ghost k: Seq<char> = key@;
        self.entries.push((key, ord));
        proof {
            vstd::set_lib::lemma_set_insert_finite_iff(old(self)@.dom(), k);
            assert(self@.dom() =~= old(self)@.dom().insert(k));
        }
    }
}

} // verus!
