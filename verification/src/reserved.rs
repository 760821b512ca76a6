//! The reserved-word set: an immutable deny-list of spellings the renamer
//! must never produce and never rename.

use vstd::prelude::*;
use crate::chars::lemma_trim_back_bounds;
use crate::chars::lemma_trim_from_bounds;
use crate::chars::str_to_chars;
use crate::chars::trim_back;
use crate::chars::trim_from;
use crate::chars::trimmed;

verus! {

/// The set of the words held by a sequence of character vectors.
pub closed spec fn set_of(words: Seq<Vec<char>>) -> Set<Seq<char>>
    decreases words.len(),
{
    if words.len() == 0 {
        Set::empty()
    } else {
        set_of(words.drop_last()).insert(words.last()@)
    }
}

pub proof fn lemma_set_of_contains(words: Seq<Vec<char>>, x: Seq<char>)
    ensures
        set_of(words).contains(x) <==> exists|i: int|
            0 <= i < words.len() && #[trigger] words[i]@ == x,
    decreases words.len(),
{
    if words.len() > 0 {
        lemma_set_of_contains(words.drop_last(), x);
        if set_of(words).contains(x) {
            if words.last()@ == x {
                assert(words[words.len() - 1]@ == x);
            } else {
                let i = choose|i: int| 0 <= i < words.drop_last().len() && #[trigger] words
                    .drop_last()[i]@ == x;
                assert(words[i]@ == x);
            }
        }
        if exists|i: int| 0 <= i < words.len() && #[trigger] words[i]@ == x {
            let i = choose|i: int| 0 <= i < words.len() && #[trigger] words[i]@ == x;
            if i < words.len() - 1 {
                assert(words.drop_last()[i]@ == x);
            }
        }
    }
}

pub proof fn lemma_set_of_finite(words: Seq<Vec<char>>)
    ensures
        set_of(words).finite(),
        set_of(words).len() <= words.len(),
    decreases words.len(),
{
    if words.len() > 0 {
        lemma_set_of_finite(words.drop_last());
    }
}

/// A flat set of reserved spellings, supplied fully formed to the engine and
/// only ever consulted, never mutated, by it.
pub struct ReservedSet {
    words: Vec<Vec<char>>,
}

impl View for ReservedSet {
    type V = Set<Seq<char>>;

    closed spec fn view(&self) -> Set<Seq<char>> {
        set_of(self.words@)
    }
}

/// Two character vectors hold the same characters.
pub fn chars_eq(a: &Vec<char>, b: &Vec<char>) -> (r: bool)
    ensures
        r == (a@ == b@),
{
    if a.len() != b.len() {
        return false;
    }
    let mut i: usize = 0;
    while i < a.len()
        invariant
            a@.len() == b@.len(),
            i <= a@.len(),
            forall|j: int| 0 <= j < i ==> a@[j] == b@[j],
        decreases a@.len() - i,
    {
        if a[i] != b[i] {
            return false;
        }
        i += 1;
    }
    proof {
        assert(a@ =~= b@);
    }
    true
}

impl ReservedSet {
    /// An empty reserved-word set.
    pub fn new() -> (r: ReservedSet)
        ensures
            r@ == Set::<Seq<char>>::empty(),
    {
        ReservedSet { words: Vec::new() }
    }

    /// Adds one reserved spelling.
    pub fn insert(&mut self, word: &str)
        ensures
            final(self)@ == old(self)@.insert(word@),
    {
        let w = str_to_chars(word);
        proof {
            assert(self.words@.push(w).drop_last() =~= self.words@);
        }
        self.words.push(w);
    }

    /// Whether `word` is reserved.
    pub fn contains_chars(&self, word: &Vec<char>) -> (r: bool)
        ensures
            r == self@.contains(word@),
    {
        proof {
            lemma_set_of_contains(self.words@, word@);
        }
        let mut i: usize = 0;
        while i < self.words.len()
            invariant
                i <= self.words@.len(),
                forall|j: int| 0 <= j < i ==> #[trigger] self.words@[j]@ != word@,
            decreases self.words@.len() - i,
        {
            if chars_eq(&self.words[i], word) {
                proof {
                    assert(self.words@[i as int]@ == word@);
                    lemma_set_of_contains(self.words@, word@);
                }
                return true;
            }
            i += 1;
        }
        false
    }

    /// Whether `word` is reserved, for callers that hold a string.
    pub fn contains(&self, word: &str) -> (r: bool)
        ensures
            r == self@.contains(word@),
    {
        let w = str_to_chars(word);
        self.contains_chars(&w)
    }

    /// Whether the trimmed line is a word to keep: not empty and not a
    /// comment line.
    pub open spec fn line_is_word(t: Seq<char>) -> bool {
        t.len() > 0 && !(t.len() >= 2 && t[0] == '/' && t[1] == '/')
    }

    /// Adds the reserved word a list line holds, if any: the line is
    /// trimmed of surrounding whitespace, and empty or comment lines
    /// (those starting with `//`) are skipped.
    pub fn insert_line(&mut self, line: &str)
        ensures
            final(self)@ == (if Self::line_is_word(trimmed(line@)) {
                old(self)@.insert(trimmed(line@))
            } else {
                old(self)@
            }),
    {
        let chars = crate::chars::str_to_chars(line);
        let ghost s = line@;
        let n = chars.len();
        let mut a: usize = 0;
        while a < n && chars[a].is_whitespace()
            invariant
                s == chars@,
                n == s.len(),
                0 <= a <= n,
                trim_from(s, a as int) == trim_from(s, 0),
            decreases n - a,
        {
            a += 1;
        }
        proof {
            lemma_trim_from_bounds(s, 0);
        }
        let mut b: usize = n;
        while b > 0 && chars[b - 1].is_whitespace()
            invariant
                s == chars@,
                n == s.len(),
                0 <= b <= n,
                trim_back(s, b as int) == trim_back(s, n as int),
            decreases b,
        {
            b -= 1;
        }
        proof {
            lemma_trim_back_bounds(s, n as int);
        }
        if a >= b {
            proof {
                assert(trimmed(s).len() == 0);
            }
            return ;
        }
        let word = crate::chars::copy_range(&chars, a, b);
        proof {
            assert(word@ == trimmed(s));
        }
        if word.len() >= 2 && word[0] == '/' && word[1] == '/' {
            return ;
        }
        proof {
            assert(self.words@.push(word).drop_last() =~= self.words@);
        }
        self.words.push(word);
    }

    /// The set held is finite, and no larger than the number of insertions.
    pub proof fn lemma_finite(&self)
        ensures
            self@.finite(),
    {
        lemma_set_of_finite(self.words@);
    }
}

} // verus!
