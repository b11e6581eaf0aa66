//! The search: from every seed word, all chains of dictionary words in which
//! each word is the one before it with one character deleted.

use crate::dictionary::Dictionary;
use crate::lexicographic::lemma_lex_between;
use crate::order::{
    holds_place_of, lemma_sorted_by_same_members, same_place, sort_distinct, strictly_ascending,
    Ordered,
};
use crate::word::{
    delete_at, delete_char, is_deletion, lemma_deletion_length, lemma_word_order_total_ordering,
    word_order,
};
use crate::word_lineage::{
    is_descent_chain, is_step, lemma_chain_push, lemma_lineage_before_asymmetric,
    lemma_lineage_eq_is_equivalence, lemma_lineage_le_antisymmetric, lemma_lineage_le_reflexive,
    lineage_before, lineage_eq, lineage_le, lineage_lt, Lineage,
};
use vstd::prelude::*;
use vstd::seq_lib::{lemma_seq_concat_contains_all_elements, lemma_seq_contains_after_push};
use vstd::string::*;

verus! {

/// The lineages that `lineage` expands to: for each position of its latest
/// word, the lineage with that word less the character there added at the
/// end.
pub open spec fn permutations_of(lineage: Seq<Seq<char>>) -> Seq<Seq<Seq<char>>> {
    Seq::new(lineage.last().len(), |p: int| lineage.push(delete_at(lineage.last(), p)))
}

/// The lineages that `lineage` expands to and whose new word is in
/// `dictionary`, in the order of the positions.
pub open spec fn survivors_of(
    dictionary: Set<Seq<char>>,
    lineage: Seq<Seq<char>>,
) -> Seq<Seq<Seq<char>>> {
    permutations_of(lineage).filter(|child: Seq<Seq<char>>| dictionary.contains(child.last()))
}

/// What a round makes of `frontier`: the survivors of its first lineage,
/// then those of its second, and so on.
pub open spec fn next_frontier(
    dictionary: Set<Seq<char>>,
    frontier: Seq<Seq<Seq<char>>>,
) -> Seq<Seq<Seq<char>>> {
    frontier.map_values(|lineage: Seq<Seq<char>>| survivors_of(dictionary, lineage)).flatten()
}

/// `lineage` is a descent of `rounds` steps: it starts at a word of `seeds`,
/// each word after that is the word before it with one character deleted,
/// and each word after the first is in `dictionary`.
pub open spec fn is_descent(
    dictionary: Set<Seq<char>>,
    seeds: Seq<Seq<char>>,
    rounds: nat,
    lineage: Seq<Seq<char>>,
) -> bool {
    &&& lineage.len() == rounds + 1
    &&& seeds.contains(lineage.first())
    &&& is_descent_chain(lineage)
    &&& forall|i: int| 1 <= i < lineage.len() ==> dictionary.contains(#[trigger] lineage[i])
}

/// `lineage` is a lineage of `frontier` with one more word, which is the
/// word before it with one character deleted and is in `dictionary`.
pub open spec fn is_surviving_child(
    dictionary: Set<Seq<char>>,
    frontier: Seq<Seq<Seq<char>>>,
    lineage: Seq<Seq<char>>,
) -> bool {
    &&& lineage.len() >= 2
    &&& frontier.contains(lineage.drop_last())
    &&& is_deletion(lineage[lineage.len() - 2], lineage.last())
    &&& dictionary.contains(lineage.last())
}

/// `frontier` holds the descents of `rounds` steps, and nothing else.
pub open spec fn is_frontier(
    dictionary: Set<Seq<char>>,
    seeds: Seq<Seq<char>>,
    rounds: nat,
    frontier: Seq<Seq<Seq<char>>>,
) -> bool {
    &&& forall|i: int|
        0 <= i < frontier.len() ==> is_descent(dictionary, seeds, rounds, #[trigger] frontier[i])
    &&& forall|lineage: Seq<Seq<char>>| #[trigger]
        is_descent(dictionary, seeds, rounds, lineage) ==> frontier.contains(lineage)
}

/// `kept` stands for `lineage` in a result: the two are equal as lineages,
/// and `kept` is not after `lineage` in the order.
pub open spec fn represents(kept: Seq<Seq<char>>, lineage: Seq<Seq<char>>) -> bool {
    lineage_eq(kept, lineage) && lineage_le(kept, lineage)
}

/// `kept` holds a lineage that stands for `lineage`.
pub open spec fn is_represented(kept: Seq<Seq<Seq<char>>>, lineage: Seq<Seq<char>>) -> bool {
    exists|j: int| 0 <= j < kept.len() && #[trigger] represents(kept[j], lineage)
}

/// The lineages are in strictly ascending order, and no two of them are
/// equal as lineages.
pub open spec fn is_sorted_and_distinct(lineages: Seq<Seq<Seq<char>>>) -> bool {
    forall|i: int, j: int|
        0 <= i < j < lineages.len() ==> lineage_lt(#[trigger] lineages[i], #[trigger] lineages[j])
            && !lineage_eq(lineages[i], lineages[j])
}

/// The number of rounds that a search of `iterations` iterations makes: none
/// where `iterations` is negative.
pub open spec fn rounds_of(iterations: i32) -> nat {
    if iterations > 0 {
        iterations as nat
    } else {
        0
    }
}

/// `result` is what a search of `rounds` rounds from `seeds` through
/// `dictionary` gives: descents of `rounds` steps only, in strictly
/// ascending order, no two of them equal as lineages, and for every descent
/// of `rounds` steps a lineage that is equal to it and not after it. So of
/// the descents that are equal as lineages, which part only in their last
/// word, the first in the order is kept.
pub open spec fn is_search_result(
    dictionary: Set<Seq<char>>,
    seeds: Seq<Seq<char>>,
    rounds: nat,
    result: Seq<Seq<Seq<char>>>,
) -> bool {
    &&& forall|i: int|
        0 <= i < result.len() ==> is_descent(dictionary, seeds, rounds, #[trigger] result[i])
    &&& is_sorted_and_distinct(result)
    &&& forall|lineage: Seq<Seq<char>>|
        is_descent(dictionary, seeds, rounds, lineage) ==> #[trigger] is_represented(
            result,
            lineage,
        )
}

/// Whether `str_to_check` is a word of `list_of_words`.
pub fn is_a_word(str_to_check: &str, list_of_words: &Dictionary) -> (found: bool)
    ensures
        found == list_of_words@.contains(str_to_check@),
{
    list_of_words.contains(str_to_check)
}

/// The lineages that `lineage_to_permutate` expands to, one for each
/// position of its latest word, in the order of the positions. Deleting at
/// different positions may give the same word: such lineages are all there.
pub fn create_word_permutations(lineage_to_permutate: &Lineage) -> (permutations: Vec<Lineage>)
    ensures
        permutations.deep_view() == permutations_of(lineage_to_permutate@),
{
    let mut permutations: Vec<Lineage> = Vec::new();
    let str_to_mutate = lineage_to_permutate.get_latest_word();
    let n: usize = str_to_mutate.unicode_len();
    for x in 0..n
        invariant
            n == str_to_mutate@.len(),
            lineage_to_permutate@.len() > 0,
            str_to_mutate@ == lineage_to_permutate@.last(),
            permutations@.len() == x,
            forall|p: int|
                0 <= p < x ==> (#[trigger] permutations@[p])@ == lineage_to_permutate@.push(
                    delete_at(str_to_mutate@, p),
                ),
    {
        let word = delete_char(str_to_mutate, x);
        let permutation = Lineage::new().extend_lineage(lineage_to_permutate, word.as_str());
        permutations.push(permutation);
    }
    assert(permutations.deep_view() =~= permutations_of(lineage_to_permutate@));
    permutations
}

/// One round: expands every lineage of `frontier` and keeps the lineages
/// whose new word is in `dictionary`.
pub fn expand_frontier(dictionary: &Dictionary, frontier: &Vec<Lineage>) -> (next: Vec<Lineage>)
    ensures
        next.deep_view() == next_frontier(dictionary@, frontier.deep_view()),
{
    let ghost survivors = |lineage: Seq<Seq<char>>| survivors_of(dictionary@, lineage);
    let ghost accepted = |child: Seq<Seq<char>>| dictionary@.contains(child.last());
    let ghost parents = frontier.deep_view();
    let mut next: Vec<Lineage> = Vec::new();
    let n: usize = frontier.len();
    assert(parents.take(0).map_values(survivors) =~= Seq::<Seq<Seq<Seq<char>>>>::empty());
    assert(next.deep_view() =~= Seq::<Seq<Seq<char>>>::empty());
    for x in 0..n
        invariant
            n == frontier@.len(),
            parents == frontier.deep_view(),
            survivors == |lineage: Seq<Seq<char>>| survivors_of(dictionary@, lineage),
            accepted == |child: Seq<Seq<char>>| dictionary@.contains(child.last()),
            next.deep_view() == parents.take(x as int).map_values(survivors).flatten(),
    {
        let parent = &frontier[x];
        let candidates = create_word_permutations(parent);
        let ghost all = candidates.deep_view();
        let ghost done = next.deep_view();
        assert(all.take(0) =~= Seq::<Seq<Seq<char>>>::empty());
        assert(all.take(0).filter(accepted) =~= Seq::<Seq<Seq<char>>>::empty()) by {
            reveal(Seq::filter);
        }
        assert(next.deep_view() =~= done + all.take(0).filter(accepted));
        for candidate in iter: candidates
            invariant
                accepted == |child: Seq<Seq<char>>| dictionary@.contains(child.last()),
                iter.seq().len() == all.len(),
                forall|p: int| 0 <= p < all.len() ==> (#[trigger] iter.seq()[p])@ == all[p],
                next.deep_view() == done + all.take(iter.index()).filter(accepted),
        {
            let ghost before = next.deep_view();
            let ghost p = iter.index();
            proof {
                reveal(Seq::filter);
                assert(candidate@ == all[p]);
                assert(all.take(p + 1).drop_last() =~= all.take(p));
                assert(all.take(p + 1).last() == all[p]);
            }
            if is_a_word(candidate.get_latest_word(), dictionary) {
                next.push(candidate);
                assert(next.deep_view() =~= before.push(all[p]));
                assert(next.deep_view() =~= done + all.take(p + 1).filter(accepted));
            } else {
                assert(next.deep_view() =~= before);
            }
        }
        proof {
            assert(all.take(all.len() as int) =~= all);
            assert(parents.take(x + 1) =~= parents.take(x as int).push(parent@));
            assert(parents.take(x as int).push(parent@).map_values(survivors) =~= parents.take(
                x as int,
            ).map_values(survivors).push(survivors(parent@)));
            parents.take(x as int).map_values(survivors).lemma_flatten_push(survivors(parent@));
        }
    }
    assert(parents.take(n as int) =~= parents);
    next
}

/// Searches from every word of `lineage_list`: in each of `iterations`
/// rounds every lineage found so far is expanded by deleting one character
/// of its latest word, at each position, and the lineages whose new word is
/// in `dictionary` are kept. The lineages left after the last round are
/// sorted, and of equal ones the first is kept.
///
/// The first clause says all that the result is. The others spell out what
/// it holds of each lineage found: it has one word more than there were
/// rounds, it starts at a seed, and each later word is the word before it
/// with one character deleted, one character shorter, and in the dictionary.
pub fn build_word_tree(
    dictionary: &Dictionary,
    lineage_list: &Vec<&String>,
    iterations: i32,
) -> (result: Vec<Lineage>)
    ensures
        is_search_result(
            dictionary@,
            lineage_list.deep_view(),
            rounds_of(iterations),
            result.deep_view(),
        ),
        forall|i: int|
            0 <= i < result@.len() ==> (#[trigger] result@[i])@.len() == rounds_of(iterations)
                + 1,
        forall|i: int|
            0 <= i < result@.len() ==> lineage_list.deep_view().contains(
                (#[trigger] result@[i])@.first(),
            ),
        forall|i: int, k: int|
            0 <= i < result@.len() && 1 <= k <= rounds_of(iterations) ==> {
                &&& is_deletion(result@[i]@[k - 1], #[trigger] result@[i]@[k])
                &&& result@[i]@[k].len() == result@[i]@[k - 1].len() - 1
                &&& dictionary@.contains(result@[i]@[k])
            },
{
    let ghost seeds = lineage_list.deep_view();
    let mut frontier: Vec<Lineage> = Vec::new();
    let n: usize = lineage_list.len();
    for x in 0..n
        invariant
            n == lineage_list@.len(),
            seeds == lineage_list.deep_view(),
            frontier@.len() == x,
            forall|i: int| 0 <= i < x ==> (#[trigger] frontier@[i])@ == seq![seeds[i]],
    {
        let lineage = Lineage::new().init(lineage_list[x].as_str());
        frontier.push(lineage);
    }
    proof {
        lemma_seed_frontier(dictionary@, seeds, frontier.deep_view());
    }
    let mut round: i32 = 0;
    while round < iterations
        invariant
            0 <= round,
            round as nat <= rounds_of(iterations),
            is_frontier(dictionary@, seeds, round as nat, frontier.deep_view()),
        decreases iterations - round,
    {
        let next = expand_frontier(dictionary, &frontier);
        proof {
            lemma_next_frontier(dictionary@, seeds, round as nat, frontier.deep_view());
        }
        frontier = next;
        round = round + 1;
    }
    let ghost rounds = rounds_of(iterations);
    let ghost found = frontier;
    assert(round as nat == rounds);
    let sorted = sort_distinct(frontier);
    proof {
        assert forall|i: int, j: int|
            0 <= i < sorted@.len() && 0 <= j < sorted@.len() implies (#[trigger] sorted@[i])@.len()
            == (#[trigger] sorted@[j])@.len() by {
            assert(sorted@.contains(sorted@[i]));
            assert(sorted@.contains(sorted@[j]));
            lemma_came_from(found, sorted@[i]);
            lemma_came_from(found, sorted@[j]);
            let a = choose|a: int|
                0 <= a < found@.len() && found.deep_view()[a] == sorted@[i]@;
            let b = choose|b: int|
                0 <= b < found@.len() && found.deep_view()[b] == sorted@[j]@;
            assert(is_descent(dictionary@, seeds, rounds, found.deep_view()[a]));
            assert(is_descent(dictionary@, seeds, rounds, found.deep_view()[b]));
        }
    }
    let result = keep_first_of_equals(sorted);
    proof {
        let kept = result.deep_view();
        assert forall|i: int| 0 <= i < kept.len() implies is_descent(
            dictionary@,
            seeds,
            rounds,
            #[trigger] kept[i],
        ) by {
            assert(sorted.deep_view().contains(kept[i]));
            let j = choose|j: int| 0 <= j < sorted@.len() && sorted.deep_view()[j] == kept[i];
            assert(sorted@.contains(sorted@[j]));
            lemma_came_from(found, sorted@[j]);
            let a = choose|a: int| 0 <= a < found@.len() && found.deep_view()[a] == kept[i];
            assert(is_descent(dictionary@, seeds, rounds, found.deep_view()[a]));
        }
        assert forall|lineage: Seq<Seq<char>>|
            is_descent(dictionary@, seeds, rounds, lineage) implies #[trigger] is_represented(
            kept,
            lineage,
        ) by {
            assert(found.deep_view().contains(lineage));
            let a = choose|a: int| 0 <= a < found@.len() && found.deep_view()[a] == lineage;
            assert(holds_place_of(sorted@, &found@[a]));
            let b = choose|b: int|
                0 <= b < sorted@.len() && #[trigger] same_place(&sorted@[b], &found@[a]);
            lemma_lineage_le_antisymmetric(sorted@[b]@, found@[a]@);
            assert(sorted.deep_view()[b] == lineage);
            assert(is_represented(kept, sorted.deep_view()[b]));
        }
        assert forall|i: int| 0 <= i < result@.len() implies (#[trigger] result@[i])@.len()
            == rounds + 1 && seeds.contains(result@[i]@.first()) by {
            assert(is_descent(dictionary@, seeds, rounds, kept[i]));
        }
        assert forall|i: int, k: int| 0 <= i < result@.len() && 1 <= k <= rounds implies {
            &&& is_deletion(result@[i]@[k - 1], #[trigger] result@[i]@[k])
            &&& result@[i]@[k].len() == result@[i]@[k - 1].len() - 1
            &&& dictionary@.contains(result@[i]@[k])
        } by {
            assert(is_descent(dictionary@, seeds, rounds, kept[i]));
            lemma_descent_steps(dictionary@, seeds, rounds, kept[i], k - 1);
        }
    }
    result
}

/// Of each run of equal lineages in `sorted`, the first.
fn keep_first_of_equals(sorted: Vec<Lineage>) -> (kept: Vec<Lineage>)
    requires
        strictly_ascending(sorted@),
        forall|i: int, j: int|
            0 <= i < sorted@.len() && 0 <= j < sorted@.len() ==> (#[trigger] sorted@[i])@.len() == (
            #[trigger] sorted@[j])@.len(),
    ensures
        is_sorted_and_distinct(kept.deep_view()),
        forall|j: int|
            0 <= j < kept@.len() ==> sorted.deep_view().contains(#[trigger] kept.deep_view()[j]),
        forall|i: int|
            0 <= i < sorted@.len() ==> is_represented(
                kept.deep_view(),
                #[trigger] sorted.deep_view()[i],
            ),
{
    let mut kept: Vec<Lineage> = Vec::new();
    let ghost all = sorted@;
    let ghost mut origin: Seq<int> = Seq::empty();
    for lineage in iter: sorted
        invariant
            iter.seq() == all,
            strictly_ascending(all),
            forall|i: int, j: int|
                0 <= i < all.len() && 0 <= j < all.len() ==> (#[trigger] all[i])@.len() == (
                #[trigger] all[j])@.len(),
            origin.len() == kept@.len(),
            forall|j: int|
                0 <= j < origin.len() ==> 0 <= #[trigger] origin[j] < iter.index() && kept@[j]@
                    == all[origin[j]]@,
            forall|a: int, b: int|
                0 <= a < b < origin.len() ==> #[trigger] origin[a] < #[trigger] origin[b],
            iter.index() > 0 ==> kept@.len() > 0 && lineage_eq(
                kept@[kept@.len() - 1]@,
                all[iter.index() - 1]@,
            ),
            forall|a: int, b: int|
                0 <= a < b < kept@.len() ==> !lineage_eq(
                    (#[trigger] kept@[a])@,
                    (#[trigger] kept@[b])@,
                ),
            forall|i: int|
                0 <= i < iter.index() ==> is_represented(kept.deep_view(), (#[trigger] all[i])@),
    {
        let ghost x = iter.index();
        let ghost before = kept.deep_view();
        let n: usize = kept.len();
        if n > 0 && kept[n - 1] == lineage {
            proof {
                let last = n - 1;
                assert(all[origin[last]].comes_before(&all[x]));
                assert(represents(before[last], all[x]@));
            }
        } else {
            proof {
                assert forall|a: int| 0 <= a < n implies !lineage_eq(
                    (#[trigger] kept@[a])@,
                    lineage@,
                ) by {
                    if lineage_eq(kept@[a]@, lineage@) {
                        let o = origin[a];
                        let width = lineage@.len() - 1;
                        if o < x - 1 {
                            assert(all[o].comes_before(&all[x - 1]));
                        } else {
                            lemma_lineage_le_reflexive(all[o]@);
                        }
                        assert(all[x - 1].comes_before(&all[x]));
                        lemma_word_order_total_ordering();
                        lemma_lex_between(all[o]@, all[x - 1]@, all[x]@, word_order(), width);
                        assert(all[x - 1]@.len() == all[x]@.len());
                        assert(lineage_eq(all[x - 1]@, all[x]@));
                        assert(lineage_eq(kept@[n - 1]@, all[x]@));
                    }
                }
                origin = origin.push(x);
                lemma_lineage_le_reflexive(lineage@);
                assert(represents(lineage@, all[x]@));
            }
            kept.push(lineage);
        }
        proof {
            let after = kept.deep_view();
            assert forall|i: int| 0 <= i < x + 1 implies is_represented(
                after,
                (#[trigger] all[i])@,
            ) by {
                if i < x {
                    assert(is_represented(before, all[i]@));
                    let j = choose|j: int|
                        0 <= j < before.len() && #[trigger] represents(before[j], all[i]@);
                    assert(represents(after[j], all[i]@));
                } else {
                    assert(represents(after[after.len() - 1], all[i]@));
                }
            }
        }
    }
    proof {
        let views = kept.deep_view();
        assert forall|i: int, j: int| 0 <= i < j < views.len() implies lineage_lt(
            #[trigger] views[i],
            #[trigger] views[j],
        ) && !lineage_eq(views[i], views[j]) by {
            assert(origin[i] < origin[j]);
            assert(all[origin[i]].comes_before(&all[origin[j]]));
            assert(!lineage_eq(kept@[i]@, kept@[j]@));
            if views[i] == views[j] {
                assert(all[origin[j]].comes_before(&all[origin[i]]));
            }
        }
        assert forall|j: int| 0 <= j < kept@.len() implies sorted.deep_view().contains(
            #[trigger] kept.deep_view()[j],
        ) by {
            assert(sorted.deep_view()[origin[j]] == kept.deep_view()[j]);
        }
        assert forall|i: int| 0 <= i < sorted@.len() implies is_represented(
            kept.deep_view(),
            #[trigger] sorted.deep_view()[i],
        ) by {
            assert(is_represented(kept.deep_view(), all[i]@));
        }
    }
    kept
}

/// In a descent every step deletes one character, so each word is one
/// character shorter than the word before it, and every word after the first
/// is in the dictionary.
pub proof fn lemma_descent_steps(
    dictionary: Set<Seq<char>>,
    seeds: Seq<Seq<char>>,
    rounds: nat,
    lineage: Seq<Seq<char>>,
    i: int,
)
    requires
        is_descent(dictionary, seeds, rounds, lineage),
        0 <= i < rounds,
    ensures
        is_deletion(lineage[i], lineage[i + 1]),
        lineage[i + 1].len() == lineage[i].len() - 1,
        dictionary.contains(lineage[i + 1]),
{
    assert(is_step(lineage, i));
    lemma_deletion_length(lineage[i], lineage[i + 1]);
}

/// The word at position `i` of a descent is `i` characters shorter than its
/// first word: no descent has more steps than its first word has
/// characters.
pub proof fn lemma_descent_word_length(
    dictionary: Set<Seq<char>>,
    seeds: Seq<Seq<char>>,
    rounds: nat,
    lineage: Seq<Seq<char>>,
    i: int,
)
    requires
        is_descent(dictionary, seeds, rounds, lineage),
        0 <= i <= rounds,
    ensures
        lineage[i].len() == lineage.first().len() - i,
        i <= lineage.first().len(),
    decreases i,
{
    if i > 0 {
        lemma_descent_word_length(dictionary, seeds, rounds, lineage, i - 1);
        lemma_descent_steps(dictionary, seeds, rounds, lineage, i - 1);
    }
}

/// A search without seeds finds nothing, and so does a search of one round
/// or more through an empty dictionary, or of more rounds than the longest
/// seed has characters.
pub proof fn lemma_search_finds_nothing(
    dictionary: Set<Seq<char>>,
    seeds: Seq<Seq<char>>,
    rounds: nat,
    result: Seq<Seq<Seq<char>>>,
)
    requires
        is_search_result(dictionary, seeds, rounds, result),
        seeds.len() == 0 || (rounds > 0 && dictionary =~= Set::empty()) || forall|i: int|
            0 <= i < seeds.len() ==> (#[trigger] seeds[i]).len() < rounds,
    ensures
        result.len() == 0,
{
    if result.len() > 0 {
        let lineage = result[0];
        assert(is_descent(dictionary, seeds, rounds, lineage));
        let i = choose|i: int| 0 <= i < seeds.len() && seeds[i] == lineage.first();
        if rounds > 0 {
            assert(dictionary.contains(lineage[1]));
        }
        lemma_descent_word_length(dictionary, seeds, rounds, lineage, rounds as int);
    }
}

/// Before the first round the frontier is the descents of no steps: the
/// lineages of one word each, one for every seed.
pub proof fn lemma_seed_frontier(
    dictionary: Set<Seq<char>>,
    seeds: Seq<Seq<char>>,
    frontier: Seq<Seq<Seq<char>>>,
)
    requires
        frontier.len() == seeds.len(),
        forall|i: int| 0 <= i < seeds.len() ==> #[trigger] frontier[i] == seq![seeds[i]],
    ensures
        is_frontier(dictionary, seeds, 0, frontier),
{
    assert forall|i: int| 0 <= i < frontier.len() implies is_descent(
        dictionary,
        seeds,
        0,
        #[trigger] frontier[i],
    ) by {
        assert(frontier[i].first() == seeds[i]);
    }
    assert forall|lineage: Seq<Seq<char>>| #[trigger]
        is_descent(dictionary, seeds, 0, lineage) implies frontier.contains(lineage) by {
        let i = choose|i: int| 0 <= i < seeds.len() && seeds[i] == lineage.first();
        assert(frontier[i] =~= lineage);
    }
}

/// A round takes the descents of `rounds` steps to the descents of one step
/// more.
pub proof fn lemma_next_frontier(
    dictionary: Set<Seq<char>>,
    seeds: Seq<Seq<char>>,
    rounds: nat,
    frontier: Seq<Seq<Seq<char>>>,
)
    requires
        is_frontier(dictionary, seeds, rounds, frontier),
    ensures
        is_frontier(dictionary, seeds, rounds + 1, next_frontier(dictionary, frontier)),
{
    let next = next_frontier(dictionary, frontier);
    assert forall|lineage: Seq<Seq<char>>| #[trigger]
        next.contains(lineage) <==> is_surviving_child(dictionary, frontier, lineage) by {
        lemma_next_frontier_members(dictionary, frontier, lineage);
    }
    assert forall|i: int| 0 <= i < next.len() implies is_descent(
        dictionary,
        seeds,
        rounds + 1,
        #[trigger] next[i],
    ) by {
        let child = next[i];
        assert(next.contains(child));
        let parent = child.drop_last();
        let j = choose|j: int| 0 <= j < frontier.len() && frontier[j] == parent;
        assert(is_descent(dictionary, seeds, rounds, frontier[j]));
        assert(child =~= parent.push(child.last()));
        lemma_chain_push(parent, child.last());
        assert(child.first() == parent.first());
        assert forall|k: int| 1 <= k < child.len() implies dictionary.contains(
            #[trigger] child[k],
        ) by {
            if k < child.len() - 1 {
                assert(child[k] == parent[k]);
            }
        }
    }
    assert forall|lineage: Seq<Seq<char>>| #[trigger]
        is_descent(dictionary, seeds, rounds + 1, lineage) implies next.contains(lineage) by {
        let parent = lineage.drop_last();
        assert(lineage =~= parent.push(lineage.last()));
        lemma_chain_push(parent, lineage.last());
        assert forall|k: int| 1 <= k < parent.len() implies dictionary.contains(
            #[trigger] parent[k],
        ) by {
            assert(parent[k] == lineage[k]);
        }
        assert(parent.first() == lineage.first());
        assert(is_descent(dictionary, seeds, rounds, parent));
        assert(dictionary.contains(lineage[lineage.len() - 1]));
        assert(is_surviving_child(dictionary, frontier, lineage));
    }
}


/// The survivors of a lineage are the lineages that add to it a word of the
/// dictionary that is its latest word with one character deleted.
pub proof fn lemma_survivors_members(
    dictionary: Set<Seq<char>>,
    parent: Seq<Seq<char>>,
    lineage: Seq<Seq<char>>,
)
    requires
        parent.len() > 0,
    ensures
        survivors_of(dictionary, parent).contains(lineage) <==> {
            &&& lineage.len() >= 2
            &&& lineage.drop_last() == parent
            &&& is_deletion(parent.last(), lineage.last())
            &&& dictionary.contains(lineage.last())
        },
{
    let accepted = |child: Seq<Seq<char>>| dictionary.contains(child.last());
    let all = permutations_of(parent);
    if survivors_of(dictionary, parent).contains(lineage) {
        all.lemma_filter_contains_rev(accepted, lineage);
        let p = choose|p: int| 0 <= p < all.len() && all[p] == lineage;
        assert(lineage.drop_last() =~= parent);
        assert(lineage.last() == delete_at(parent.last(), p));
        let k = choose|k: int|
            0 <= k < all.filter(accepted).len() && all.filter(accepted)[k] == lineage;
        all.lemma_filter_pred(accepted, k);
    }
    if lineage.len() >= 2 && lineage.drop_last() == parent && is_deletion(
        parent.last(),
        lineage.last(),
    ) && dictionary.contains(lineage.last()) {
        let p = choose|p: int|
            0 <= p < parent.last().len() && lineage.last() == #[trigger] delete_at(
                parent.last(),
                p,
            );
        assert(all[p] =~= lineage);
        assert(accepted(all[p]));
        all.lemma_filter_contains(accepted, p);
    }
}

/// After a round the frontier holds the surviving children of the lineages
/// that it held before, and nothing else.
pub proof fn lemma_next_frontier_members(
    dictionary: Set<Seq<char>>,
    frontier: Seq<Seq<Seq<char>>>,
    lineage: Seq<Seq<char>>,
)
    requires
        forall|i: int| 0 <= i < frontier.len() ==> (#[trigger] frontier[i]).len() > 0,
    ensures
        next_frontier(dictionary, frontier).contains(lineage) <==> is_surviving_child(
            dictionary,
            frontier,
            lineage,
        ),
    decreases frontier.len(),
{
    let survivors = |parent: Seq<Seq<char>>| survivors_of(dictionary, parent);
    if frontier.len() == 0 {
        assert(frontier.map_values(survivors) =~= Seq::<Seq<Seq<Seq<char>>>>::empty());
        assert(!next_frontier(dictionary, frontier).contains(lineage));
        assert(!frontier.contains(lineage.drop_last()));
    } else {
        let earlier = frontier.drop_last();
        let parent = frontier.last();
        assert(frontier =~= earlier.push(parent));
        assert(frontier.map_values(survivors) =~= earlier.map_values(survivors).push(
            survivors(parent),
        ));
        earlier.map_values(survivors).lemma_flatten_push(survivors(parent));
        lemma_seq_concat_contains_all_elements(
            next_frontier(dictionary, earlier),
            survivors_of(dictionary, parent),
            lineage,
        );
        lemma_next_frontier_members(dictionary, earlier, lineage);
        lemma_survivors_members(dictionary, parent, lineage);
        lemma_seq_contains_after_push(earlier, parent, lineage.drop_last());
        if lineage.len() >= 2 {
            assert(lineage[lineage.len() - 2] == lineage.drop_last().last());
        }
    }
}

/// A search has one result: what two searches from the same dictionary, the
/// same seeds and the same number of rounds give is the same lineages in the
/// same order.
pub proof fn lemma_search_result_unique(
    dictionary: Set<Seq<char>>,
    seeds: Seq<Seq<char>>,
    rounds: nat,
    first: Seq<Seq<Seq<char>>>,
    second: Seq<Seq<Seq<char>>>,
)
    requires
        is_search_result(dictionary, seeds, rounds, first),
        is_search_result(dictionary, seeds, rounds, second),
    ensures
        first == second,
{
    lemma_results_share_lineages(dictionary, seeds, rounds, first, second);
    lemma_results_share_lineages(dictionary, seeds, rounds, second, first);
    lemma_lineage_before_asymmetric();
    let before = lineage_before();
    assert forall|i: int, j: int| 0 <= i < j < first.len() implies #[trigger] before(
        first[i],
        first[j],
    ) by {
        assert(lineage_lt(first[i], first[j]));
    }
    assert forall|i: int, j: int| 0 <= i < j < second.len() implies #[trigger] before(
        second[i],
        second[j],
    ) by {
        assert(lineage_lt(second[i], second[j]));
    }
    lemma_sorted_by_same_members(first, second, before);
}

/// The result of a search depends on the seeds only as a set: their order,
/// and how often a seed is named, make no difference.
pub proof fn lemma_search_result_ignores_seed_order(
    dictionary: Set<Seq<char>>,
    seeds: Seq<Seq<char>>,
    other_seeds: Seq<Seq<char>>,
    rounds: nat,
    result: Seq<Seq<Seq<char>>>,
)
    requires
        seeds.to_set() == other_seeds.to_set(),
        is_search_result(dictionary, seeds, rounds, result),
    ensures
        is_search_result(dictionary, other_seeds, rounds, result),
{
    assert forall|lineage: Seq<Seq<char>>|
        is_descent(dictionary, seeds, rounds, lineage) == is_descent(
            dictionary,
            other_seeds,
            rounds,
            lineage,
        ) by {
        assert(seeds.contains(lineage.first()) == seeds.to_set().contains(lineage.first()));
        assert(other_seeds.contains(lineage.first()) == other_seeds.to_set().contains(
            lineage.first(),
        ));
    }
    assert forall|i: int| 0 <= i < result.len() implies is_descent(
        dictionary,
        other_seeds,
        rounds,
        #[trigger] result[i],
    ) by {
        assert(is_descent(dictionary, seeds, rounds, result[i]));
    }
    assert forall|lineage: Seq<Seq<char>>|
        is_descent(dictionary, other_seeds, rounds, lineage) implies #[trigger] is_represented(
        result,
        lineage,
    ) by {
        assert(is_descent(dictionary, seeds, rounds, lineage));
    }
}

/// Every lineage of one result of a search is in every other result of it.
proof fn lemma_results_share_lineages(
    dictionary: Set<Seq<char>>,
    seeds: Seq<Seq<char>>,
    rounds: nat,
    first: Seq<Seq<Seq<char>>>,
    second: Seq<Seq<Seq<char>>>,
)
    requires
        is_search_result(dictionary, seeds, rounds, first),
        is_search_result(dictionary, seeds, rounds, second),
    ensures
        forall|i: int| 0 <= i < first.len() ==> second.contains(#[trigger] first[i]),
{
    assert forall|i: int| 0 <= i < first.len() implies second.contains(#[trigger] first[i]) by {
        let lineage = first[i];
        assert(is_descent(dictionary, seeds, rounds, lineage));
        assert(is_represented(second, lineage));
        let j = choose|j: int| 0 <= j < second.len() && #[trigger] represents(second[j], lineage);
        assert(is_descent(dictionary, seeds, rounds, second[j]));
        assert(is_represented(first, second[j]));
        let back = choose|back: int|
            0 <= back < first.len() && #[trigger] represents(first[back], second[j]);
        lemma_own_representative(first, i, back, second[j]);
    }
}

/// A lineage of a sorted result without equal lineages that is stood for by
/// a lineage for which another lineage of the result stands is that lineage.
proof fn lemma_own_representative(
    result: Seq<Seq<Seq<char>>>,
    i: int,
    back: int,
    between: Seq<Seq<char>>,
)
    requires
        is_sorted_and_distinct(result),
        0 <= i < result.len(),
        0 <= back < result.len(),
        represents(between, result[i]),
        represents(result[back], between),
    ensures
        result[i] == between,
{
    lemma_lineage_eq_is_equivalence(result[back], between, result[i]);
    lemma_lineage_eq_is_equivalence(result[i], result[back], result[i]);
    if back < i {
        assert(!lineage_eq(result[back], result[i]));
    } else if i < back {
        assert(!lineage_eq(result[i], result[back]));
    } else {
        lemma_lineage_le_antisymmetric(result[i], between);
    }
}

/// The words of a lineage that is among `lineages` are among their words.
proof fn lemma_came_from(lineages: Vec<Lineage>, lineage: Lineage)
    requires
        lineages@.contains(lineage),
    ensures
        lineages.deep_view().contains(lineage@),
{
    let i = choose|i: int| 0 <= i < lineages@.len() && lineages@[i] == lineage;
    assert(lineages.deep_view()[i] == lineage@);
}

} // verus!
