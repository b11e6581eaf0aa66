//! What is reported of the lineages that a search found: the words they
//! start from, and the edges of the graph of their descents.

use crate::order::{
    holds_place_of, lemma_sorted_by_same_members, same_place, sort_distinct, Ordered,
};
use crate::word::{lemma_word_before_asymmetric, lemma_word_le_antisymmetric, word_before};
use crate::word_lineage::{edge_texts_of, Lineage};
use vstd::prelude::*;
use vstd::relations::sorted_by;
use vstd::string::*;

verus! {

/// `sorted` holds the words of `words`, each once, in ascending order.
pub open spec fn is_sorted_list_of(sorted: Seq<Seq<char>>, words: Seq<Seq<char>>) -> bool {
    &&& sorted_by(sorted, word_before())
    &&& forall|w: Seq<char>| sorted.contains(w) <==> words.contains(w)
}

/// The first words of `lineages`, in their order.
pub open spec fn first_words(lineages: Seq<Seq<Seq<char>>>) -> Seq<Seq<char>> {
    Seq::new(lineages.len(), |i: int| lineages[i].first())
}

/// The texts of the edges of all of `lineages`, lineage by lineage.
pub open spec fn all_edge_texts(lineages: Seq<Seq<Seq<char>>>) -> Seq<Seq<char>> {
    lineages.map_values(|lineage: Seq<Seq<char>>| edge_texts_of(lineage)).flatten()
}

/// The lines `lines`, each ended by a line feed.
pub open spec fn lines_text(lines: Seq<Seq<char>>) -> Seq<char>
    decreases lines.len(),
{
    if lines.len() == 0 {
        Seq::empty()
    } else {
        lines_text(lines.drop_last()) + lines.last() + seq!['\n']
    }
}

/// The description of a directed graph with the edges `edges`: an opening
/// line, one line for each edge, a closing line.
pub open spec fn graph_text(edges: Seq<Seq<char>>) -> Seq<char> {
    "digraph G {\n"@ + lines_text(edges) + "}\n"@
}

/// There is one sorted list of the words of a sequence.
pub proof fn lemma_sorted_list_unique(
    words: Seq<Seq<char>>,
    first: Seq<Seq<char>>,
    second: Seq<Seq<char>>,
)
    requires
        is_sorted_list_of(first, words),
        is_sorted_list_of(second, words),
    ensures
        first == second,
{
    lemma_word_before_asymmetric();
    assert forall|i: int| 0 <= i < first.len() implies second.contains(#[trigger] first[i]) by {
        assert(first.contains(first[i]));
    }
    assert forall|j: int| 0 <= j < second.len() implies first.contains(#[trigger] second[j]) by {
        assert(second.contains(second[j]));
    }
    lemma_sorted_by_same_members(first, second, word_before());
}

/// The words of `words`, each once, in ascending order.
pub fn sorted_words(words: Vec<String>) -> (sorted: Vec<String>)
    ensures
        is_sorted_list_of(sorted.deep_view(), words.deep_view()),
{
    let ghost given = words;
    let sorted = sort_distinct(words);
    proof {
        let list = sorted.deep_view();
        let before = word_before();
        assert forall|i: int, j: int| 0 <= i < j < list.len() implies #[trigger] before(
            list[i],
            list[j],
        ) by {
            assert(sorted@[i].comes_before(&sorted@[j]));
        }
        assert forall|w: Seq<char>| list.contains(w) implies given.deep_view().contains(w) by {
            let i = choose|i: int| 0 <= i < list.len() && list[i] == w;
            assert(sorted@.contains(sorted@[i]));
            let j = choose|j: int| 0 <= j < given@.len() && given@[j] == sorted@[i];
            assert(given.deep_view()[j] == w);
        }
        assert forall|w: Seq<char>| given.deep_view().contains(w) implies list.contains(w) by {
            let i = choose|i: int| 0 <= i < given@.len() && given.deep_view()[i] == w;
            assert(holds_place_of(sorted@, &given@[i]));
            let j = choose|j: int|
                0 <= j < sorted@.len() && #[trigger] same_place(&sorted@[j], &given@[i]);
            lemma_word_le_antisymmetric(sorted@[j]@, given@[i]@);
            assert(list[j] == w);
        }
    }
    sorted
}

/// The words from which `lineages` start, each once, in ascending order.
pub fn original_words(lineages: &Vec<Lineage>) -> (words: Vec<String>)
    ensures
        is_sorted_list_of(words.deep_view(), first_words(lineages.deep_view())),
{
    let mut firsts: Vec<String> = Vec::new();
    let n: usize = lineages.len();
    for x in 0..n
        invariant
            n == lineages@.len(),
            firsts@.len() == x,
            forall|i: int| 0 <= i < x ==> (#[trigger] firsts@[i])@ == lineages@[i]@.first(),
    {
        firsts.push(String::from_str(lineages[x].get_original_word()));
    }
    assert(firsts.deep_view() =~= first_words(lineages.deep_view()));
    sorted_words(firsts)
}

/// The texts of the edges of `lineages`, each once, in ascending order.
pub fn edge_list(lineages: &Vec<Lineage>) -> (edges: Vec<String>)
    ensures
        is_sorted_list_of(edges.deep_view(), all_edge_texts(lineages.deep_view())),
{
    let ghost texts = |lineage: Seq<Seq<char>>| edge_texts_of(lineage);
    let mut all: Vec<String> = Vec::new();
    let n: usize = lineages.len();
    assert(lineages.deep_view().take(0).map_values(texts) =~= Seq::<Seq<Seq<char>>>::empty());
    assert(all.deep_view() =~= Seq::<Seq<char>>::empty());
    for x in 0..n
        invariant
            n == lineages@.len(),
            texts == |lineage: Seq<Seq<char>>| edge_texts_of(lineage),
            all.deep_view() == lineages.deep_view().take(x as int).map_values(texts).flatten(),
    {
        let ghost before = all.deep_view();
        let ghost seen = lineages.deep_view().take(x as int);
        let mut instructions = lineages[x].get_dot_file_instructions();
        let ghost added = instructions.deep_view();
        all.append(&mut instructions);
        proof {
            assert(all.deep_view() =~= before + added);
            assert(lineages.deep_view().take(x + 1) =~= seen.push(lineages@[x as int]@));
            assert(seen.push(lineages@[x as int]@).map_values(texts) =~= seen.map_values(
                texts,
            ).push(added));
            seen.map_values(texts).lemma_flatten_push(added);
        }
    }
    assert(lineages.deep_view().take(n as int) =~= lineages.deep_view());
    sorted_words(all)
}

/// The description of the directed graph whose edges have the texts
/// `edges`.
pub fn graph_description(edges: &Vec<String>) -> (text: String)
    ensures
        text@ == graph_text(edges.deep_view()),
{
    let mut text = String::from_str("digraph G {\n");
    let n: usize = edges.len();
    proof {
        reveal_strlit("\n");
        assert("\n"@ =~= seq!['\n']);
        assert(edges.deep_view().take(0) =~= Seq::<Seq<char>>::empty());
        assert(text@ =~= "digraph G {\n"@ + lines_text(edges.deep_view().take(0)));
    }
    for x in 0..n
        invariant
            n == edges@.len(),
            "\n"@ == seq!['\n'],
            text@ == "digraph G {\n"@ + lines_text(edges.deep_view().take(x as int)),
    {
        text.append(edges[x].as_str());
        text.append("\n");
        proof {
            let seen = edges.deep_view().take(x + 1);
            assert(seen.drop_last() =~= edges.deep_view().take(x as int));
            assert(seen.last() == edges@[x as int]@);
            assert(text@ =~= "digraph G {\n"@ + lines_text(seen));
        }
    }
    assert(edges.deep_view().take(n as int) =~= edges.deep_view());
    text.append("}\n");
    text
}

} // verus!
