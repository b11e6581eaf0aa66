//! Words as sequences of characters: deleting one character, and the
//! order on words.

use crate::lexicographic::{
    first_difference, lemma_first_difference_unique, lemma_lex_le_antisymmetric,
    lemma_lex_le_reflexive, lemma_lex_le_total, lemma_lex_le_transitive, lex_le,
};
use crate::order::Ordered;
use vstd::prelude::*;
use vstd::relations::*;
use vstd::std_specs::iter::IteratorSpec;
use vstd::string::*;

verus! {

/// The word obtained from `word` by deleting the character at position `p`.
pub open spec fn delete_at(word: Seq<char>, p: int) -> Seq<char>
    recommends
        0 <= p < word.len(),
{
    word.subrange(0, p) + word.subrange(p + 1, word.len() as int)
}

/// `child` is `parent` with exactly one character deleted.
pub open spec fn is_deletion(parent: Seq<char>, child: Seq<char>) -> bool {
    exists|p: int| 0 <= p < parent.len() && child == #[trigger] delete_at(parent, p)
}

/// The order on characters: by code point.
pub open spec fn char_le() -> spec_fn(char, char) -> bool {
    |x: char, y: char| x <= y
}

/// The order on words: lexicographic by code point, a proper prefix before
/// the longer word.
pub open spec fn word_le(a: Seq<char>, b: Seq<char>) -> bool {
    lex_le(a, b, char_le())
}

/// `a` comes strictly before `b` in the order on words.
pub open spec fn word_lt(a: Seq<char>, b: Seq<char>) -> bool {
    word_le(a, b) && a != b
}

/// The order on words, as a relation.
pub open spec fn word_order() -> spec_fn(Seq<char>, Seq<char>) -> bool {
    |a: Seq<char>, b: Seq<char>| word_le(a, b)
}

/// The strict order on words, as a relation.
pub open spec fn word_before() -> spec_fn(Seq<char>, Seq<char>) -> bool {
    |a: Seq<char>, b: Seq<char>| word_lt(a, b)
}

/// A deletion shortens a word by one character.
pub proof fn lemma_deletion_length(parent: Seq<char>, child: Seq<char>)
    requires
        is_deletion(parent, child),
    ensures
        child.len() == parent.len() - 1,
{
}

/// The order on characters is a total order.
pub proof fn lemma_char_le_total_ordering()
    ensures
        total_ordering(char_le()),
{
    let le = char_le();
    assert forall|x: char, y: char| #[trigger] le(x, y) && #[trigger] le(y, x) implies x == y by {}
}

/// The order on words is reflexive.
pub proof fn lemma_word_le_reflexive(a: Seq<char>)
    ensures
        word_le(a, a),
{
    lemma_lex_le_reflexive(a, char_le());
}

/// Any two words are comparable.
pub proof fn lemma_word_le_total(a: Seq<char>, b: Seq<char>)
    ensures
        word_le(a, b) || word_le(b, a),
{
    lemma_char_le_total_ordering();
    lemma_lex_le_total(a, b, char_le());
}

/// Two words that each come before the other are the same word.
pub proof fn lemma_word_le_antisymmetric(a: Seq<char>, b: Seq<char>)
    requires
        word_le(a, b),
        word_le(b, a),
    ensures
        a == b,
{
    lemma_char_le_total_ordering();
    lemma_lex_le_antisymmetric(a, b, char_le());
}

/// The order on words is transitive.
pub proof fn lemma_word_le_transitive(a: Seq<char>, b: Seq<char>, c: Seq<char>)
    requires
        word_le(a, b),
        word_le(b, c),
    ensures
        word_le(a, c),
{
    lemma_char_le_total_ordering();
    lemma_lex_le_transitive(a, b, c, char_le());
}

/// The order on words is a total order.
pub proof fn lemma_word_order_total_ordering()
    ensures
        total_ordering(word_order()),
{
    let le = word_order();
    assert forall|x: Seq<char>| #[trigger] le(x, x) by {
        lemma_word_le_reflexive(x);
    }
    assert forall|x: Seq<char>, y: Seq<char>| #[trigger] le(x, y) && #[trigger] le(y, x) implies x
        == y by {
        lemma_word_le_antisymmetric(x, y);
    }
    assert forall|x: Seq<char>, y: Seq<char>, z: Seq<char>| #[trigger]
        le(x, y) && #[trigger] le(y, z) implies le(x, z) by {
        lemma_word_le_transitive(x, y, z);
    }
    assert forall|x: Seq<char>, y: Seq<char>| #[trigger] le(x, y) || #[trigger] le(y, x) by {
        lemma_word_le_total(x, y);
    }
}

/// Of two different words only one comes strictly before the other.
pub proof fn lemma_word_before_asymmetric()
    ensures
        asymmetric(word_before()),
{
    let before = word_before();
    assert forall|x: Seq<char>, y: Seq<char>| #[trigger] before(x, y) implies #[trigger] before(
        y,
        x,
    ) == false by {
        if before(y, x) {
            lemma_word_le_antisymmetric(x, y);
        }
    }
}

/// Removes the character at position `p` of `word`.
pub fn delete_char(word: &str, p: usize) -> (shorter: String)
    requires
        p < word@.len(),
    ensures
        shorter@ == delete_at(word@, p as int),
{
    let len: usize = word.unicode_len();
    let head = word.substring_char(0, p);
    let tail = word.substring_char(p + 1, len);
    let mut shorter = String::from_str(head);
    shorter.append(tail);
    shorter
}

/// Whether `a` and `b` are the same word.
pub fn same_word(a: &str, b: &str) -> (same: bool)
    ensures
        same == (a@ == b@),
{
    let mut ia = a.chars();
    let mut ib = b.chars();
    let ghost mut i: int = 0;
    loop
        invariant
            0 <= i <= a@.len(),
            i <= b@.len(),
            ia.remaining() == a@.skip(i),
            ib.remaining() == b@.skip(i),
            forall|j: int| 0 <= j < i ==> a@[j] == b@[j],
        decreases a@.len() - i,
    {
        let x = ia.next();
        let y = ib.next();
        match (x, y) {
            (None, None) => {
                assert(a@ =~= b@);
                return true;
            },
            (Some(cx), Some(cy)) => {
                if cx != cy {
                    assert(a@[i] != b@[i]);
                    return false;
                }
                proof {
                    assert(a@.skip(i).drop_first() =~= a@.skip(i + 1));
                    assert(b@.skip(i).drop_first() =~= b@.skip(i + 1));
                    i = i + 1;
                }
            },
            _ => {
                return false;
            },
        }
    }
}

/// Whether `a` comes before `b`, or equals it, in the order on words.
pub fn words_in_order(a: &str, b: &str) -> (in_order: bool)
    ensures
        in_order == word_le(a@, b@),
{
    let mut ia = a.chars();
    let mut ib = b.chars();
    let ghost mut i: int = 0;
    loop
        invariant
            0 <= i <= a@.len(),
            i <= b@.len(),
            ia.remaining() == a@.skip(i),
            ib.remaining() == b@.skip(i),
            forall|j: int| 0 <= j < i ==> a@[j] == b@[j],
        decreases a@.len() - i,
    {
        let x = ia.next();
        let y = ib.next();
        match (x, y) {
            (None, _) => {
                assert(first_difference(a@, b@, i));
                return true;
            },
            (Some(_), None) => {
                proof {
                    lemma_only_first_difference(a@, b@, i);
                }
                return false;
            },
            (Some(cx), Some(cy)) => {
                if cx != cy {
                    proof {
                        assert(a@[i] == cx && b@[i] == cy);
                        lemma_only_first_difference(a@, b@, i);
                    }
                    return cx < cy;
                }
                proof {
                    assert(a@.skip(i).drop_first() =~= a@.skip(i + 1));
                    assert(b@.skip(i).drop_first() =~= b@.skip(i + 1));
                    i = i + 1;
                }
            },
        }
    }
}

impl Ordered for String {
    open spec fn comes_before(&self, other: &Self) -> bool {
        word_le(self@, other@)
    }

    proof fn lemma_comparable(a: &Self, b: &Self) {
        lemma_word_le_total(a@, b@);
    }

    proof fn lemma_transitive(a: &Self, b: &Self, c: &Self) {
        lemma_word_le_transitive(a@, b@, c@);
    }

    fn is_at_most(&self, other: &Self) -> (at_most: bool) {
        words_in_order(self.as_str(), other.as_str())
    }
}

/// Once the first difference of two words is known, their order is decided
/// there.
proof fn lemma_only_first_difference(a: Seq<char>, b: Seq<char>, k: int)
    requires
        first_difference(a, b, k),
    ensures
        word_le(a, b) <==> (k == a.len() || (k < b.len() && a[k] <= b[k])),
{
    let le = char_le();
    if word_le(a, b) {
        let k1 = choose|k1: int| #[trigger]
            first_difference(a, b, k1) && (k1 == a.len() || (k1 < b.len() && le(a[k1], b[k1])));
        lemma_first_difference_unique(a, b, k, k1);
    }
    if k == a.len() || (k < b.len() && a[k] <= b[k]) {
        assert(k < b.len() ==> le(a[k], b[k]) == (a[k] <= b[k]));
    }
}

} // verus!
