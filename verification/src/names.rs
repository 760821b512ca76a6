//! Short-name rendering: an ordinal is written in a bijective positional
//! notation over a fixed alphabet, so that small ordinals get the shortest
//! legal identifiers, and the renamer picks the least ordinal whose rendered
//! name is not reserved.

use vstd::prelude::*;
use vstd::set_lib::lemma_len_subset;
use vstd::set_lib::lemma_map_size;
use vstd::set_lib::lemma_int_range;
use vstd::set_lib::set_int_range;
use crate::reserved::ReservedSet;

verus! {

/// The character a first-alphabet index renders to: `_`, then `a`..=`z`,
/// then `A`..=`Z` (53 symbols, all legal identifier starts).
pub open spec fn first_char(i: int) -> char
    recommends
        0 <= i < 53,
{
    if i == 0 {
        '_'
    } else if i <= 26 {
        (96 + i) as char
    } else {
        (64 + (i - 26)) as char
    }
}

/// The character a later-alphabet index renders to: the first alphabet
/// followed by `0`..=`9` (63 symbols).
pub open spec fn more_char(i: int) -> char
    recommends
        0 <= i < 63,
{
    if i < 53 {
        first_char(i)
    } else {
        (48 + (i - 53)) as char
    }
}

/// The characters of a short name after the first one: the remaining ordinal
/// written least-significant first in the 63-symbol alphabet, empty once it
/// reaches zero.
pub open spec fn name_tail(m: int) -> Seq<char>
    decreases m,
    when m >= 0
{
    if m <= 0 {
        Seq::empty()
    } else {
        seq![more_char(m % 63)] + name_tail(m / 63)
    }
}

/// The short name rendered from an ordinal.
pub open spec fn name_of(n: int) -> Seq<char>
    recommends
        n >= 0,
{
    seq![first_char(n % 53)] + name_tail(n / 53)
}

pub fn render_first_char(i: usize) -> (c: char)
    requires
        i < 53,
    ensures
        c == first_char(i as int),
{
    let b: u8 = if i == 0 {
        95
    } else if i <= 26 {
        96 + (i as u8)
    } else {
        64 + ((i - 26) as u8)
    };
    b as char
}

pub fn render_more_char(i: usize) -> (c: char)
    requires
        i < 63,
    ensures
        c == more_char(i as int),
{
    if i < 53 {
        render_first_char(i)
    } else {
        (48 + ((i - 53) as u8)) as char
    }
}

/// Renders the short name of `n` into a fresh vector.
pub fn render_name(n: usize) -> (v: Vec<char>)
    ensures
        v@ == name_of(n as int),
{
    let mut v: Vec<char> = Vec::new();
    v.push(render_first_char(n % 53));
    let mut m: usize = n / 53;
    proof {
        assert(v@ + name_tail(m as int) =~= name_of(n as int));
    }
    while m > 0
        invariant
            v@ + name_tail(m as int) =~= name_of(n as int),
        decreases m,
    {
        v.push(render_more_char(m % 63));
        proof {
            assert(seq![more_char(m as int % 63)] + name_tail(m as int / 63) == name_tail(
                m as int,
            ));
            assert((v@ + name_tail(m as int / 63)) =~= name_of(n as int));
        }
        m = m / 63;
    }
    proof {
        assert(v@ =~= name_of(n as int));
    }
    v
}

pub proof fn lemma_first_char_injective(i: int, j: int)
    requires
        0 <= i < 53,
        0 <= j < 53,
        first_char(i) == first_char(j),
    ensures
        i == j,
{
    assert(first_char(i) as int == first_char(j) as int);
}

pub proof fn lemma_more_char_injective(i: int, j: int)
    requires
        0 <= i < 63,
        0 <= j < 63,
        more_char(i) == more_char(j),
    ensures
        i == j,
{
    assert(more_char(i) as int == more_char(j) as int);
}

pub proof fn lemma_name_tail_injective(m1: int, m2: int)
    requires
        m1 >= 0,
        m2 >= 0,
        name_tail(m1) == name_tail(m2),
    ensures
        m1 == m2,
    decreases m1,
{
    if m1 > 0 && m2 > 0 {
        assert(name_tail(m1)[0] == more_char(m1 % 63));
        assert(name_tail(m2)[0] == more_char(m2 % 63));
        lemma_more_char_injective(m1 % 63, m2 % 63);
        assert(name_tail(m1).drop_first() =~= name_tail(m1 / 63));
        assert(name_tail(m2).drop_first() =~= name_tail(m2 / 63));
        lemma_name_tail_injective(m1 / 63, m2 / 63);
    } else if m1 > 0 || m2 > 0 {
        assert(name_tail(m1).len() != name_tail(m2).len());
    }
}

/// Distinct ordinals always render to distinct short names.
pub proof fn lemma_name_of_injective(a: int, b: int)
    requires
        a >= 0,
        b >= 0,
        name_of(a) == name_of(b),
    ensures
        a == b,
{
    assert(name_of(a)[0] == first_char(a % 53));
    assert(name_of(b)[0] == first_char(b % 53));
    lemma_first_char_injective(a % 53, b % 53);
    assert(name_of(a).drop_first() =~= name_tail(a / 53));
    assert(name_of(b).drop_first() =~= name_tail(b / 53));
    lemma_name_tail_injective(a / 53, b / 53);
}

/// A finite set of non-negative ordinals whose rendered names all lie in
/// `words` is no larger than `words`.
pub proof fn lemma_ordinal_names_bound(s: Set<int>, words: Set<Seq<char>>)
    requires
        s.finite(),
        words.finite(),
        forall|j: int| s.contains(j) ==> j >= 0 && words.contains(#[trigger] name_of(j)),
    ensures
        s.len() <= words.len(),
{
    let f = |j: int| name_of(j);
    assert forall|a: int, b: int|
        s.contains(a) && s.contains(b) && #[trigger] f(a) == #[trigger] f(b) implies a == b by {
        lemma_name_of_injective(a, b);
    }
    lemma_map_size(s, s.map(f), f);
    assert(s.map(f).subset_of(words)) by {
        assert forall|y: Seq<char>| s.map(f).contains(y) implies words.contains(y) by {
            let j = choose|j: int| s.contains(j) && f(j) == y;
            assert(words.contains(name_of(j)));
        }
    }
    lemma_len_subset(s.map(f), words);
}

/// `o` is the ordinal the renamer allocates from counter `c`: the least
/// ordinal at or above `c` whose rendered name is not reserved.
pub open spec fn is_alloc(reserved: Set<Seq<char>>, c: int, o: int) -> bool {
    &&& c <= o
    &&& !reserved.contains(name_of(o))
    &&& forall|j: int| c <= j < o ==> reserved.contains(#[trigger] name_of(j))
}

/// The ordinal the renamer allocates from counter `c`.
pub open spec fn alloc_ord(reserved: Set<Seq<char>>, c: int) -> int {
    choose|o: int| is_alloc(reserved, c, o)
}

pub proof fn lemma_alloc_unique(reserved: Set<Seq<char>>, c: int, o1: int, o2: int)
    requires
        is_alloc(reserved, c, o1),
        is_alloc(reserved, c, o2),
    ensures
        o1 == o2,
{
    if o1 < o2 {
        assert(reserved.contains(name_of(o1)));
    }
    if o2 < o1 {
        assert(reserved.contains(name_of(o2)));
    }
}

proof fn lemma_least_free_from(reserved: Set<Seq<char>>, c: int, n: nat)
    requires
        c >= 0,
        !reserved.contains(name_of(c + n)),
    ensures
        exists|o: int| is_alloc(reserved, c, o),
    decreases n,
{
    if !reserved.contains(name_of(c)) {
        assert(is_alloc(reserved, c, c));
    } else {
        assert(n > 0);
        lemma_least_free_from(reserved, c + 1, (n - 1) as nat);
        let o = choose|o: int| #[trigger] is_alloc(reserved, c + 1, o);
        assert(is_alloc(reserved, c, o));
    }
}

/// From any starting counter there is an ordinal to allocate, and it is no
/// further than the number of reserved words away.
pub proof fn lemma_alloc_exists(reserved: Set<Seq<char>>, c: int)
    requires
        c >= 0,
        reserved.finite(),
    ensures
        is_alloc(reserved, c, alloc_ord(reserved, c)),
        alloc_ord(reserved, c) <= c + reserved.len(),
{
    let k = reserved.len();
    if forall|j: int| c <= j <= c + k ==> reserved.contains(#[trigger] name_of(j)) {
        let rng = set_int_range(c, c + k + 1);
        lemma_int_range(c, c + k + 1);
        lemma_ordinal_names_bound(rng, reserved);
        assert(false);
    }
    let free = choose|j: int| c <= j <= c + k && !reserved.contains(#[trigger] name_of(j));
    lemma_least_free_from(reserved, c, (free - c) as nat);
    let o = alloc_ord(reserved, c);
    assert(is_alloc(reserved, c, o));
    if o > c + k {
        let rng = set_int_range(c, o);
        lemma_int_range(c, o);
        lemma_ordinal_names_bound(rng, reserved);
        assert(false);
    }
}

/// Renders the candidate name for `counter` and, when it does not collide
/// with the reserved set, appends it to `buffer`; a colliding candidate is
/// discarded and the buffer is left unchanged.
pub fn generate_id_and_push(buffer: &mut String, counter: usize, blacklist: &ReservedSet) -> (ok:
    bool)
    ensures
        ok == !blacklist@.contains(name_of(counter as int)),
        ok ==> final(buffer)@ == old(buffer)@ + name_of(counter as int),
        !ok ==> final(buffer)@ == old(buffer)@,
{
    let candidate = render_name(counter);
    if blacklist.contains_chars(&candidate) {
        false
    } else {
        crate::chars::push_chars(buffer, &candidate);
        true
    }
}

} // verus!
