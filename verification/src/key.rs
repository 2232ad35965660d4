//! The order on keys.
//!
//! Keys are strings. Their abstract value is the sequence of their characters,
//! and they are ordered as a dictionary orders words, character by character,
//! each character by its code point. This is the order in which the standard
//! library puts strings.

use vstd::prelude::*;
use vstd::std_specs::iter::IteratorSpec;

verus! {

/// The abstract value of a key or of a stored value.
pub type Text = Seq<char>;

/// `a` comes strictly before `b`: at the first position where the two differ,
/// `a` has ended or holds the smaller code point.
pub open spec fn key_lt(a: Text, b: Text) -> bool
    decreases a.len(),
{
    if b.len() == 0 {
        false
    } else if a.len() == 0 {
        true
    } else if a[0] == b[0] {
        key_lt(a.drop_first(), b.drop_first())
    } else {
        (a[0] as int) < (b[0] as int)
    }
}

/// `a` comes before `b` or is `b`.
pub open spec fn key_le(a: Text, b: Text) -> bool {
    a == b || key_lt(a, b)
}

/// Every key of `s` comes strictly before each key that follows it.
pub open spec fn ascending(s: Seq<Text>) -> bool {
    forall|i: int, j: int| 0 <= i < j < s.len() ==> key_lt(#[trigger] s[i], #[trigger] s[j])
}

/// No key comes before itself.
pub proof fn lemma_lt_irreflexive(a: Text)
    ensures
        !key_lt(a, a),
    decreases a.len(),
{
    if a.len() > 0 {
        lemma_lt_irreflexive(a.drop_first());
    }
}

/// The order is transitive.
pub proof fn lemma_lt_transitive(a: Text, b: Text, c: Text)
    requires
        key_lt(a, b),
        key_lt(b, c),
    ensures
        key_lt(a, c),
    decreases a.len(),
{
    if a.len() > 0 && a[0] == b[0] && b[0] == c[0] {
        lemma_lt_transitive(a.drop_first(), b.drop_first(), c.drop_first());
    }
}

/// Of two different keys one comes before the other.
pub proof fn lemma_lt_total(a: Text, b: Text)
    ensures
        a == b || key_lt(a, b) || key_lt(b, a),
    decreases a.len(),
{
    if a.len() == 0 || b.len() == 0 {
        if a.len() == 0 && b.len() == 0 {
            assert(a =~= b);
        }
    } else if a[0] == b[0] {
        lemma_lt_total(a.drop_first(), b.drop_first());
        if a.drop_first() == b.drop_first() {
            assert(a =~= seq![a[0]] + a.drop_first());
            assert(b =~= seq![b[0]] + b.drop_first());
        }
    }
}

/// No two keys come before each other.
pub proof fn lemma_lt_asymmetric(a: Text, b: Text)
    requires
        key_lt(a, b),
    ensures
        !key_lt(b, a),
        a != b,
{
    lemma_lt_irreflexive(a);
    if key_lt(b, a) {
        lemma_lt_transitive(a, b, a);
    }
}

/// `a <= b < c` gives `a < c`.
pub proof fn lemma_le_lt(a: Text, b: Text, c: Text)
    requires
        key_le(a, b),
        key_lt(b, c),
    ensures
        key_lt(a, c),
{
    if a != b {
        lemma_lt_transitive(a, b, c);
    }
}

/// `a < b <= c` gives `a < c`.
pub proof fn lemma_lt_le(a: Text, b: Text, c: Text)
    requires
        key_lt(a, b),
        key_le(b, c),
    ensures
        key_lt(a, c),
{
    if b != c {
        lemma_lt_transitive(a, b, c);
    }
}

/// What is not strictly before `b` is `b` or after it.
pub proof fn lemma_not_lt(a: Text, b: Text)
    ensures
        !key_lt(a, b) <==> key_le(b, a),
{
    lemma_lt_total(a, b);
    if key_lt(a, b) {
        lemma_lt_asymmetric(a, b);
    }
}

/// Whether `a` comes strictly before `b`: the two are read character by
/// character up to the first difference.
pub fn key_less(a: &String, b: &String) -> (r: bool)
    ensures
        r == key_lt(a@, b@),
{
    broadcast use vstd::string::group_string_axioms;

    let mut left = a.as_str().chars();
    let mut right = b.as_str().chars();
    loop
        invariant
            left.obeys_prophetic_iter_laws(),
            right.obeys_prophetic_iter_laws(),
            left.decrease() is Some,
            key_lt(a@, b@) == key_lt(left.remaining(), right.remaining()),
        decreases left.decrease()->0,
    {
        let x = left.next();
        let y = right.next();
        match y {
            None => {
                return false;
            },
            Some(q) => {
                match x {
                    None => {
                        return true;
                    },
                    Some(p) => {
                        if p != q {
                            return p < q;
                        }
                    },
                }
            },
        }
    }
}

} // verus!
