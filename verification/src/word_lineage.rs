//! Lineages: chains of words that record a descent from a starting word,
//! one deleted character at a time.

use crate::lexicographic::{
    first_difference, lemma_first_difference_unique, lemma_lex_le_antisymmetric,
    lemma_lex_le_reflexive, lemma_lex_le_total, lemma_lex_le_transitive, lex_le,
};
use crate::order::Ordered;
use crate::word::{
    is_deletion, lemma_word_order_total_ordering, same_word, word_le, word_order, words_in_order,
};
use std::cmp::Ordering;
use vstd::prelude::*;
use vstd::relations::*;
use vstd::std_specs::cmp::PartialEqSpecImpl;
use vstd::std_specs::cmp::PartialOrdSpecImpl;
use vstd::string::*;

verus! {

/// The order on lineages: word by word over the positions that both have,
/// by the order on words; if they agree there, the shorter one first.
pub open spec fn lineage_le(a: Seq<Seq<char>>, b: Seq<Seq<char>>) -> bool {
    lex_le(a, b, word_order())
}

/// `a` comes strictly before `b`.
pub open spec fn lineage_lt(a: Seq<Seq<char>>, b: Seq<Seq<char>>) -> bool {
    lineage_le(a, b) && a != b
}

/// The strict order on lineages, as a relation.
pub open spec fn lineage_before() -> spec_fn(Seq<Seq<char>>, Seq<Seq<char>>) -> bool {
    |a: Seq<Seq<char>>, b: Seq<Seq<char>>| lineage_lt(a, b)
}

/// What `==` means on lineages: the same number of words, and the same word
/// at every position but the last one. The final words are never compared,
/// so two lineages that part only in their last step count as equal.
pub open spec fn lineage_eq(a: Seq<Seq<char>>, b: Seq<Seq<char>>) -> bool {
    &&& a.len() == b.len()
    &&& forall|i: int| 0 <= i < a.len() - 1 ==> a[i] == b[i]
}

/// The word after position `i` is the word at `i` with one character
/// deleted.
pub open spec fn is_step(words: Seq<Seq<char>>, i: int) -> bool {
    is_deletion(words[i], words[i + 1])
}

/// Every word after the first is the word before it with one character
/// deleted.
pub open spec fn is_descent_chain(words: Seq<Seq<char>>) -> bool {
    forall|i: int| 0 <= i < words.len() - 1 ==> #[trigger] is_step(words, i)
}

/// The connector between two words of a rendered lineage or edge.
pub open spec fn connector() -> Seq<char> {
    seq![' ', '-', '>', ' ']
}

/// The text of the edge from `parent` to `child`.
pub open spec fn edge_text(parent: Seq<char>, child: Seq<char>) -> Seq<char> {
    parent + connector() + child
}

/// The edges of a lineage: its pairs of consecutive words, in order.
pub open spec fn edges_of(words: Seq<Seq<char>>) -> Seq<(Seq<char>, Seq<char>)> {
    Seq::new((words.len() - 1) as nat, |i: int| (words[i], words[i + 1]))
}

/// The texts of the edges of a lineage, in order.
pub open spec fn edge_texts_of(words: Seq<Seq<char>>) -> Seq<Seq<char>> {
    Seq::new((words.len() - 1) as nat, |i: int| edge_text(words[i], words[i + 1]))
}

/// The words of a lineage joined by the connector.
pub open spec fn rendered(words: Seq<Seq<char>>) -> Seq<char>
    decreases words.len(),
{
    if words.len() == 0 {
        Seq::empty()
    } else if words.len() == 1 {
        words[0]
    } else {
        rendered(words.drop_last()) + connector() + words.last()
    }
}

/// A chain of words from an original word down to its latest descendant.
/// It always holds at least one word.
#[derive(Debug, Eq, Ord)]
pub struct Lineage {
    lineage: Vec<String>,
}

/// Makes lineages: from a first word, or from a lineage and one more word.
/// A builder holds no words of its own.
pub struct WordLineageBuilder {
    word_lineage: Vec<String>,
}

impl View for Lineage {
    type V = Seq<Seq<char>>;

    closed spec fn view(&self) -> Seq<Seq<char>> {
        Seq::new(self.lineage@.len(), |i: int| self.lineage@[i]@)
    }
}

impl DeepView for Lineage {
    type V = Seq<Seq<char>>;

    open spec fn deep_view(&self) -> Seq<Seq<char>> {
        self@
    }
}

impl View for WordLineageBuilder {
    type V = Seq<Seq<char>>;

    closed spec fn view(&self) -> Seq<Seq<char>> {
        Seq::new(self.word_lineage@.len(), |i: int| self.word_lineage@[i]@)
    }
}

impl WordLineageBuilder {
    #[verifier::type_invariant]
    spec fn holds_nothing(&self) -> bool {
        self.word_lineage@.len() == 0
    }

    /// The lineage of `previous_lineage` with `next_word` added at its end.
    /// The result is a descent chain exactly if `previous_lineage` is one and
    /// `next_word` is its latest word with one character deleted.
    pub fn extend_lineage(self, previous_lineage: &Lineage, next_word: &str) -> (extended: Lineage)
        ensures
            extended@ == previous_lineage@.push(next_word@),
            is_descent_chain(extended@) <==> is_descent_chain(previous_lineage@) && is_deletion(
                previous_lineage@.last(),
                next_word@,
            ),
    {
        proof {
            use_type_invariant(&self);
            use_type_invariant(previous_lineage);
        }
        let mut words = self.word_lineage;
        let mut copy = previous_lineage.lineage.clone();
        assert(copy@ =~= previous_lineage.lineage@);
        words.append(&mut copy);
        words.push(String::from_str(next_word));
        let extended = Lineage { lineage: words };
        proof {
            assert(extended@ =~= previous_lineage@.push(next_word@));
            lemma_chain_push(previous_lineage@, next_word@);
        }
        extended
    }

    /// The lineage that holds `initial_word` and nothing else.
    pub fn init(self, initial_word: &str) -> (lineage: Lineage)
        ensures
            lineage@ == seq![initial_word@],
            is_descent_chain(lineage@),
    {
        proof {
            use_type_invariant(&self);
        }
        let mut words = self.word_lineage;
        words.push(String::from_str(initial_word));
        let lineage = Lineage { lineage: words };
        assert(lineage@ =~= seq![initial_word@]);
        lineage
    }
}

/// Adding a word to a non-empty chain keeps it a descent chain exactly if
/// the new word is a deletion of the word that was last.
pub proof fn lemma_chain_push(words: Seq<Seq<char>>, next: Seq<char>)
    requires
        words.len() > 0,
    ensures
        is_descent_chain(words.push(next)) <==> is_descent_chain(words) && is_deletion(
            words.last(),
            next,
        ),
{
    let longer = words.push(next);
    let n = words.len() as int;
    if is_descent_chain(longer) {
        assert forall|i: int| 0 <= i < words.len() - 1 implies #[trigger] is_step(words, i) by {
            assert(is_step(longer, i));
        }
        assert(is_step(longer, n - 1));
    }
    if is_descent_chain(words) && is_deletion(words.last(), next) {
        assert forall|i: int| 0 <= i < longer.len() - 1 implies #[trigger] is_step(longer, i) by {
            if i < n - 1 {
                assert(is_step(words, i));
            }
        }
    }
}

impl Lineage {
    #[verifier::type_invariant]
    spec fn holds_a_word(&self) -> bool {
        self.lineage@.len() > 0
    }

    /// A builder, from which `init` or `extend_lineage` makes a lineage.
    pub fn new() -> (builder: WordLineageBuilder)
        ensures
            builder@ == Seq::<Seq<char>>::empty(),
    {
        let builder = WordLineageBuilder { word_lineage: Vec::new() };
        assert(builder@ =~= Seq::<Seq<char>>::empty());
        builder
    }

    /// The number of words.
    pub fn len(&self) -> (n: usize)
        ensures
            n == self@.len(),
            n > 0,
    {
        proof {
            use_type_invariant(self);
        }
        self.lineage.len()
    }

    /// The word at position `i`.
    pub fn word(&self, i: usize) -> (word: &str)
        requires
            i < self@.len(),
        ensures
            word@ == self@[i as int],
    {
        self.lineage[i].as_str()
    }

    /// The most recent word: the last one.
    pub fn get_latest_word(&self) -> (word: &str)
        ensures
            self@.len() > 0,
            word@ == self@.last(),
    {
        proof {
            use_type_invariant(self);
        }
        self.lineage[self.lineage.len() - 1].as_str()
    }

    /// The original word: the first one.
    pub fn get_original_word(&self) -> (word: &str)
        ensures
            self@.len() > 0,
            word@ == self@.first(),
    {
        proof {
            use_type_invariant(self);
        }
        self.lineage[0].as_str()
    }

    /// The edges of this lineage: each word paired with the word after it.
    /// A lineage of one word has none.
    pub fn edges(&self) -> (edges: Vec<(String, String)>)
        ensures
            edges.deep_view() == edges_of(self@),
    {
        proof {
            use_type_invariant(self);
        }
        let mut edges: Vec<(String, String)> = Vec::new();
        let last: usize = self.lineage.len() - 1;
        for x in 0..last
            invariant
                last == self.lineage@.len() - 1,
                edges@.len() == x,
                forall|i: int|
                    0 <= i < x ==> (#[trigger] edges@[i]).0@ == self@[i] && edges@[i].1@ == self@[i
                        + 1],
        {
            let parent = self.lineage[x].clone();
            let child = self.lineage[x + 1].clone();
            edges.push((parent, child));
        }
        assert(edges.deep_view() =~= edges_of(self@));
        edges
    }

    /// One line of a graph description for each edge of this lineage: the
    /// parent word, the connector, the child word.
    pub fn get_dot_file_instructions(&self) -> (instructions: Vec<String>)
        ensures
            instructions.deep_view() == edge_texts_of(self@),
    {
        proof {
            use_type_invariant(self);
            reveal_strlit(" -> ");
            assert(" -> "@ =~= connector());
        }
        let mut instructions: Vec<String> = Vec::new();
        let last: usize = self.lineage.len() - 1;
        for x in 0..last
            invariant
                last == self.lineage@.len() - 1,
                " -> "@ == connector(),
                instructions@.len() == x,
                forall|i: int|
                    0 <= i < x ==> (#[trigger] instructions@[i])@ == edge_text(
                        self@[i],
                        self@[i + 1],
                    ),
        {
            let mut instruct = self.lineage[x].clone();
            instruct.append(" -> ");
            instruct.append(self.lineage[x + 1].as_str());
            instructions.push(instruct);
        }
        assert(instructions.deep_view() =~= edge_texts_of(self@));
        instructions
    }

    /// The words of this lineage, from the original one to the latest,
    /// joined by the connector.
    pub fn to_string(&self) -> (output: String)
        ensures
            output@ == rendered(self@),
    {
        proof {
            use_type_invariant(self);
            reveal_strlit(" -> ");
            assert(" -> "@ =~= connector());
        }
        let mut output = self.lineage[0].clone();
        let n: usize = self.lineage.len();
        assert(self@.take(1) =~= seq![self@[0]]);
        for x in 1..n
            invariant
                n == self.lineage@.len(),
                n == self@.len(),
                " -> "@ == connector(),
                output@ == rendered(self@.take(x as int)),
        {
            output.append(" -> ");
            output.append(self.lineage[x].as_str());
            proof {
                let longer = self@.take(x + 1);
                assert(longer.drop_last() =~= self@.take(x as int));
                assert(longer.last() == self@[x as int]);
            }
        }
        assert(self@.take(n as int) =~= self@);
        output
    }

    /// Whether this lineage comes before `other`, or is the same chain of
    /// words, in the order on lineages.
    pub fn le(&self, other: &Lineage) -> (in_order: bool)
        ensures
            in_order == lineage_le(self@, other@),
    {
        let n: usize = self.lineage.len();
        let m: usize = other.lineage.len();
        let mut x: usize = 0;
        while x < n && x < m
            invariant
                n == self@.len(),
                m == other@.len(),
                n == self.lineage@.len(),
                m == other.lineage@.len(),
                x <= n,
                x <= m,
                forall|i: int| 0 <= i < x ==> self@[i] == other@[i],
            decreases n - x,
        {
            let a = self.lineage[x].as_str();
            let b = other.lineage[x].as_str();
            if !same_word(a, b) {
                proof {
                    lemma_lineage_order_at_first_difference(self@, other@, x as int);
                }
                return words_in_order(a, b);
            }
            x = x + 1;
        }
        proof {
            lemma_lineage_order_at_first_difference(self@, other@, x as int);
        }
        n <= m
    }
}

impl Clone for Lineage {
    /// A lineage of the same words.
    fn clone(&self) -> (copy: Lineage)
        ensures
            copy@ == self@,
    {
        proof {
            use_type_invariant(self);
        }
        let words = self.lineage.clone();
        assert(words@ =~= self.lineage@);
        let copy = Lineage { lineage: words };
        assert(copy@ =~= self@);
        copy
    }
}

impl Ordered for Lineage {
    open spec fn comes_before(&self, other: &Self) -> bool {
        lineage_le(self@, other@)
    }

    proof fn lemma_comparable(a: &Self, b: &Self) {
        lemma_lineage_le_total(a@, b@);
    }

    proof fn lemma_transitive(a: &Self, b: &Self, c: &Self) {
        lemma_lineage_le_transitive(a@, b@, c@);
    }

    fn is_at_most(&self, other: &Self) -> (at_most: bool) {
        self.le(other)
    }
}

impl PartialEq for Lineage {
    /// Whether the two lineages have the same number of words and the same
    /// word at every position but the last.
    fn eq(&self, other: &Lineage) -> (equal: bool) {
        proof {
            use_type_invariant(self);
            use_type_invariant(other);
        }
        let n: usize = self.lineage.len();
        if n != other.lineage.len() {
            return false;
        }
        let last: usize = n - 1;
        for x in 0..last
            invariant
                last == n - 1,
                n == self@.len(),
                n == other@.len(),
                n == self.lineage@.len(),
                n == other.lineage@.len(),
                forall|i: int| 0 <= i < x ==> self@[i] == other@[i],
        {
            if !same_word(self.lineage[x].as_str(), other.lineage[x].as_str()) {
                assert(self@[x as int] != other@[x as int]);
                return false;
            }
        }
        true
    }
}

impl PartialEqSpecImpl for Lineage {
    open spec fn obeys_eq_spec() -> bool {
        true
    }

    open spec fn eq_spec(&self, other: &Lineage) -> bool {
        lineage_eq(self@, other@)
    }
}

impl PartialOrd for Lineage {
    /// The place of this lineage relative to `other` in the order on
    /// lineages.
    fn partial_cmp(&self, other: &Lineage) -> (order: Option<Ordering>) {
        if self.le(other) {
            if other.le(self) {
                Some(Ordering::Equal)
            } else {
                Some(Ordering::Less)
            }
        } else {
            Some(Ordering::Greater)
        }
    }
}

impl PartialOrdSpecImpl for Lineage {
    open spec fn obeys_partial_cmp_spec() -> bool {
        true
    }

    open spec fn partial_cmp_spec(&self, other: &Lineage) -> Option<Ordering> {
        if lineage_le(self@, other@) {
            if lineage_le(other@, self@) {
                Some(Ordering::Equal)
            } else {
                Some(Ordering::Less)
            }
        } else {
            Some(Ordering::Greater)
        }
    }
}

/// Once the first difference of two lineages is known, their order is
/// decided there.
proof fn lemma_lineage_order_at_first_difference(
    a: Seq<Seq<char>>,
    b: Seq<Seq<char>>,
    k: int,
)
    requires
        first_difference(a, b, k),
    ensures
        lineage_le(a, b) <==> (k == a.len() || (k < b.len() && word_le(a[k], b[k]))),
{
    let le = word_order();
    if lineage_le(a, b) {
        let k1 = choose|k1: int| #[trigger]
            first_difference(a, b, k1) && (k1 == a.len() || (k1 < b.len() && le(a[k1], b[k1])));
        lemma_first_difference_unique(a, b, k, k1);
    }
    if k == a.len() || (k < b.len() && word_le(a[k], b[k])) {
        assert(k < b.len() ==> le(a[k], b[k]) == word_le(a[k], b[k]));
    }
}

/// Every lineage is in order with itself.
pub proof fn lemma_lineage_le_reflexive(a: Seq<Seq<char>>)
    ensures
        lineage_le(a, a),
{
    lemma_lex_le_reflexive(a, word_order());
}

/// Of any two lineages one comes before the other, or they are the same.
pub proof fn lemma_lineage_le_total(a: Seq<Seq<char>>, b: Seq<Seq<char>>)
    ensures
        lineage_le(a, b) || lineage_le(b, a),
{
    lemma_word_order_total_ordering();
    lemma_lex_le_total(a, b, word_order());
}

/// Two lineages that each come before the other are the same chain of words.
pub proof fn lemma_lineage_le_antisymmetric(a: Seq<Seq<char>>, b: Seq<Seq<char>>)
    requires
        lineage_le(a, b),
        lineage_le(b, a),
    ensures
        a == b,
{
    lemma_word_order_total_ordering();
    lemma_lex_le_antisymmetric(a, b, word_order());
}

/// If `a` comes before `b` and `b` before `c`, then `a` comes before `c`.
pub proof fn lemma_lineage_le_transitive(
    a: Seq<Seq<char>>,
    b: Seq<Seq<char>>,
    c: Seq<Seq<char>>,
)
    requires
        lineage_le(a, b),
        lineage_le(b, c),
    ensures
        lineage_le(a, c),
{
    lemma_word_order_total_ordering();
    lemma_lex_le_transitive(a, b, c, word_order());
}

/// Of two different lineages only one comes strictly before the other.
pub proof fn lemma_lineage_before_asymmetric()
    ensures
        asymmetric(lineage_before()),
{
    let before = lineage_before();
    assert forall|x: Seq<Seq<char>>, y: Seq<Seq<char>>| #[trigger]
        before(x, y) implies #[trigger] before(y, x) == false by {
        if before(y, x) {
            lemma_lineage_le_antisymmetric(x, y);
        }
    }
}

/// The order on lineages is lexicographic over words, then by length: it is
/// decided by the words at the first position where the two differ, and
/// where one is a prefix of the other the shorter one comes first.
pub proof fn lemma_lineage_le_is_lexicographic(a: Seq<Seq<char>>, b: Seq<Seq<char>>, k: int)
    requires
        first_difference(a, b, k),
    ensures
        k < a.len() && k < b.len() ==> (lineage_le(a, b) <==> word_le(a[k], b[k])),
        k == a.len() || k == b.len() ==> (lineage_le(a, b) <==> a.len() <= b.len()),
{
    lemma_lineage_order_at_first_difference(a, b, k);
}

/// Equality of lineages is an equivalence: reflexive, symmetric and
/// transitive.
pub proof fn lemma_lineage_eq_is_equivalence(
    a: Seq<Seq<char>>,
    b: Seq<Seq<char>>,
    c: Seq<Seq<char>>,
)
    ensures
        lineage_eq(a, a),
        lineage_eq(a, b) ==> lineage_eq(b, a),
        lineage_eq(a, b) && lineage_eq(b, c) ==> lineage_eq(a, c),
{
}

/// The same chain of words is an equal lineage; the converse fails where
/// only the last words differ.
pub proof fn lemma_lineage_eq_ignores_last_word(
    words: Seq<Seq<char>>,
    last_a: Seq<char>,
    last_b: Seq<char>,
)
    ensures
        lineage_eq(words.push(last_a), words.push(last_b)),
{
}

} // verus!
