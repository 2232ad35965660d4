//! From what the arena stores to what it stands for: strings as character
//! sequences, arena indices as integers.

use crate::key::Text;
use vstd::prelude::*;

verus! {

/// The character sequences of a sequence of strings.
pub open spec fn texts(s: Seq<String>) -> Seq<Text> {
    s.map_values(|x: String| x@)
}

/// The indices of a sequence of arena indices, as integers.
pub open spec fn indices(s: Seq<usize>) -> Seq<int> {
    s.map_values(|x: usize| x as int)
}

/// An optional arena index, as an integer.
pub open spec fn index_of(o: Option<usize>) -> Option<int> {
    match o {
        Some(i) => Some(i as int),
        None => None,
    }
}

/// The character sequences of a part of a sequence of strings are that part of
/// the character sequences.
pub broadcast proof fn lemma_texts_subrange(s: Seq<String>, a: int, b: int)
    requires
        0 <= a <= b <= s.len(),
    ensures
        #[trigger] texts(s.subrange(a, b)) == texts(s).subrange(a, b),
{
    assert(texts(s.subrange(a, b)) =~= texts(s).subrange(a, b));
}

/// `texts` goes through the replacement of an element.
pub broadcast proof fn lemma_texts_update(s: Seq<String>, i: int, x: String)
    requires
        0 <= i < s.len(),
    ensures
        #[trigger] texts(s.update(i, x)) == texts(s).update(i, x@),
{
    assert(texts(s.update(i, x)) =~= texts(s).update(i, x@));
}

/// `texts` goes through the addition of an element at the end.
pub broadcast proof fn lemma_texts_push(s: Seq<String>, x: String)
    ensures
        #[trigger] texts(s.push(x)) == texts(s).push(x@),
{
    assert(texts(s.push(x)) =~= texts(s).push(x@));
}

/// `texts` goes through concatenation.
pub broadcast proof fn lemma_texts_add(s: Seq<String>, t: Seq<String>)
    ensures
        #[trigger] texts(s + t) == texts(s) + texts(t),
{
    assert(texts(s + t) =~= texts(s) + texts(t));
}

/// The character sequences of no strings are none.
pub broadcast proof fn lemma_texts_empty()
    ensures
        #[trigger] texts(Seq::<String>::empty()) == Seq::<Text>::empty(),
{
    assert(texts(Seq::<String>::empty()) =~= Seq::<Text>::empty());
}

/// The integers of a part of a sequence of indices are that part of the
/// integers.
pub broadcast proof fn lemma_indices_subrange(s: Seq<usize>, a: int, b: int)
    requires
        0 <= a <= b <= s.len(),
    ensures
        #[trigger] indices(s.subrange(a, b)) == indices(s).subrange(a, b),
{
    assert(indices(s.subrange(a, b)) =~= indices(s).subrange(a, b));
}

/// `indices` goes through the addition of an element at the end.
pub broadcast proof fn lemma_indices_push(s: Seq<usize>, x: usize)
    ensures
        #[trigger] indices(s.push(x)) == indices(s).push(x as int),
{
    assert(indices(s.push(x)) =~= indices(s).push(x as int));
}

/// `indices` goes through concatenation.
pub broadcast proof fn lemma_indices_add(s: Seq<usize>, t: Seq<usize>)
    ensures
        #[trigger] indices(s + t) == indices(s) + indices(t),
{
    assert(indices(s + t) =~= indices(s) + indices(t));
}

/// The integers of no indices are none.
pub broadcast proof fn lemma_indices_empty()
    ensures
        #[trigger] indices(Seq::<usize>::empty()) == Seq::<int>::empty(),
{
    assert(indices(Seq::<usize>::empty()) =~= Seq::<int>::empty());
}

/// The lemmas of this module, for `broadcast use`.
pub broadcast group group_views {
    lemma_texts_subrange,
    lemma_texts_update,
    lemma_texts_push,
    lemma_texts_add,
    lemma_texts_empty,
    lemma_indices_subrange,
    lemma_indices_push,
    lemma_indices_add,
    lemma_indices_empty,
}

} // verus!
