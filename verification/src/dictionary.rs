//! The dictionary: the set of valid words, made once from a list of words
//! and only read afterwards.

use crate::word::same_word;
use vstd::hash_set::StringHashSet;
use vstd::prelude::*;
use vstd::string::*;

verus! {

/// The lowercase form of `text`, as `str::to_lowercase` gives it.
pub uninterp spec fn lowercased(text: Seq<char>) -> Seq<char>;

/// Calls `str::to_lowercase` of the standard library. Trusted: the result is
/// the lowercase form of the argument, which depends on the argument alone.
#[verifier::external_body]
fn to_lowercase(text: &str) -> (lower: String)
    ensures
        lower@ == lowercased(text@),
{
    text.to_lowercase()
}

/// A word is kept as an entry if it has more than one letter, or is one of
/// the one-letter words "a", "i" and "o".
pub open spec fn is_entry(word: Seq<char>) -> bool {
    word.len() > 1 || word == seq!['a'] || word == seq!['i'] || word == seq!['o']
}

/// The entry that a raw line of a word list stands for: its lowercase form,
/// if that is kept as an entry.
pub open spec fn entry_of(raw: Seq<char>) -> Option<Seq<char>> {
    if is_entry(lowercased(raw)) {
        Some(lowercased(raw))
    } else {
        None
    }
}

/// The words of `words` without repetitions, each at the place where it
/// first occurs.
pub open spec fn first_occurrences(words: Seq<Seq<char>>) -> Seq<Seq<char>>
    decreases words.len(),
{
    if words.len() == 0 {
        words
    } else if words.drop_last().contains(words.last()) {
        first_occurrences(words.drop_last())
    } else {
        first_occurrences(words.drop_last()).push(words.last())
    }
}

/// The first occurrences of the words of a sequence are the same words, each
/// once.
pub proof fn lemma_first_occurrences(words: Seq<Seq<char>>)
    ensures
        first_occurrences(words).no_duplicates(),
        first_occurrences(words).to_set() == words.to_set(),
    decreases words.len(),
{
    if words.len() == 0 {
        assert(first_occurrences(words).to_set() =~= words.to_set());
    } else {
        let earlier = words.drop_last();
        let word = words.last();
        let kept = first_occurrences(earlier);
        lemma_first_occurrences(earlier);
        assert(words =~= earlier.push(word));
        earlier.lemma_push_to_set_commute(word);
        kept.lemma_push_to_set_commute(word);
        if earlier.contains(word) {
            assert(earlier.to_set().contains(word));
            assert(earlier.to_set().insert(word) =~= earlier.to_set());
        } else {
            assert(!kept.to_set().contains(word));
            assert(!kept.contains(word));
        }
    }
}

/// Whether `word` is kept as an entry of a dictionary.
pub fn is_dictionary_entry(word: &str) -> (keep: bool)
    ensures
        keep == is_entry(word@),
{
    proof {
        reveal_strlit("a");
        reveal_strlit("i");
        reveal_strlit("o");
        assert("a"@ =~= seq!['a']);
        assert("i"@ =~= seq!['i']);
        assert("o"@ =~= seq!['o']);
    }
    if word.unicode_len() > 1 {
        true
    } else {
        same_word(word, "a") || same_word(word, "i") || same_word(word, "o")
    }
}

/// The entry that the raw line `raw` stands for, if any.
pub fn normalize_entry(raw: &str) -> (entry: Option<String>)
    ensures
        entry.deep_view() == entry_of(raw@),
{
    let lower = to_lowercase(raw);
    if is_dictionary_entry(lower.as_str()) {
        Some(lower)
    } else {
        None
    }
}

/// The entries that the raw lines `lines` stand for, in the order of the
/// lines.
pub fn normalize_entries(lines: &Vec<String>) -> (entries: Vec<String>)
    ensures
        entries.deep_view() == lines.deep_view().filter_map(|raw: Seq<char>| entry_of(raw)),
{
    let ghost to_entry = |raw: Seq<char>| entry_of(raw);
    let mut entries: Vec<String> = Vec::new();
    let n: usize = lines.len();
    assert(lines.deep_view().take(0) =~= Seq::<Seq<char>>::empty());
    assert(entries.deep_view() =~= Seq::<Seq<char>>::empty());
    for x in 0..n
        invariant
            n == lines@.len(),
            to_entry == |raw: Seq<char>| entry_of(raw),
            entries.deep_view() == lines.deep_view().take(x as int).filter_map(to_entry),
    {
        let ghost before = entries.deep_view();
        let ghost seen = lines.deep_view().take(x + 1);
        assert(seen.drop_last() =~= lines.deep_view().take(x as int));
        assert(seen.last() == lines@[x as int]@);
        match normalize_entry(lines[x].as_str()) {
            Some(entry) => {
                entries.push(entry);
                assert(entries.deep_view() =~= before + seq![entry@]);
            },
            None => {},
        }
    }
    assert(lines.deep_view().take(n as int) =~= lines.deep_view());
    entries
}

/// A set of words.
pub struct Dictionary {
    entries: Vec<String>,
    index: StringHashSet,
}

impl View for Dictionary {
    type V = Set<Seq<char>>;

    closed spec fn view(&self) -> Set<Seq<char>> {
        self.index@
    }
}

impl Dictionary {
    #[verifier::type_invariant]
    spec fn entries_match_index(&self) -> bool {
        &&& self.words().no_duplicates()
        &&& self.words().to_set() == self.index@
    }

    /// The words of the dictionary, in the order in which it holds them.
    pub closed spec fn words(&self) -> Seq<Seq<char>> {
        self.entries.deep_view()
    }

    /// The dictionary of the words in `words`. It holds each word once, at
    /// the place of its first occurrence.
    pub fn from_words(words: &Vec<String>) -> (dictionary: Dictionary)
        ensures
            dictionary@ == words.deep_view().to_set(),
            dictionary.words() == first_occurrences(words.deep_view()),
    {
        let mut entries: Vec<String> = Vec::new();
        let mut index = StringHashSet::new();
        let n: usize = words.len();
        assert(words.deep_view().take(0) =~= Seq::<Seq<char>>::empty());
        assert(entries.deep_view() =~= Seq::<Seq<char>>::empty());
        assert(entries.deep_view().to_set() =~= index@);
        for x in 0..n
            invariant
                n == words@.len(),
                entries.deep_view() == first_occurrences(words.deep_view().take(x as int)),
                index@ == words.deep_view().take(x as int).to_set(),
                entries.deep_view().to_set() == index@,
                entries.deep_view().no_duplicates(),
        {
            let ghost before = entries.deep_view();
            let ghost earlier = words.deep_view().take(x as int);
            let ghost word = words@[x as int]@;
            proof {
                assert(words.deep_view().take(x + 1) =~= earlier.push(word));
                assert(earlier.push(word).drop_last() =~= earlier);
                earlier.lemma_push_to_set_commute(word);
                before.lemma_push_to_set_commute(word);
            }
            let added = index.insert(words[x].clone());
            if added {
                entries.push(words[x].clone());
                assert(entries.deep_view() =~= before.push(word));
            }
        }
        assert(words.deep_view().take(n as int) =~= words.deep_view());
        Dictionary { entries, index }
    }

    /// The number of words.
    pub fn len(&self) -> (n: usize)
        ensures
            n == self@.len(),
            n == self.words().len(),
    {
        proof {
            use_type_invariant(self);
            self.words().unique_seq_to_set();
        }
        self.entries.len()
    }

    /// Whether `word` is in the dictionary.
    pub fn contains(&self, word: &str) -> (found: bool)
        ensures
            found == self@.contains(word@),
    {
        self.index.contains(word)
    }

    /// The words of the dictionary, each once.
    pub fn entries(&self) -> (entries: &Vec<String>)
        ensures
            entries.deep_view() == self.words(),
            self.words().no_duplicates(),
            self.words().to_set() == self@,
    {
        proof {
            use_type_invariant(self);
        }
        &self.entries
    }

    /// The words of the dictionary that have `length` letters, in the order
    /// in which the dictionary holds them.
    pub fn words_of_length(&self, length: usize) -> (found: Vec<&String>)
        ensures
            found.deep_view() == self.words().filter(|w: Seq<char>| w.len() == length),
    {
        let ghost has_length = |w: Seq<char>| w.len() == length;
        let mut found: Vec<&String> = Vec::new();
        let n: usize = self.entries.len();
        assert(self.words().take(0) =~= Seq::<Seq<char>>::empty());
        assert(found.deep_view() =~= Seq::<Seq<char>>::empty());
        for x in 0..n
            invariant
                n == self.entries@.len(),
                has_length == |w: Seq<char>| w.len() == length,
                found.deep_view() == self.words().take(x as int).filter(has_length),
        {
            let ghost before = found.deep_view();
            let ghost seen = self.words().take(x + 1);
            assert(seen.drop_last() =~= self.words().take(x as int));
            assert(seen.last() == self.entries@[x as int]@);
            let word = &self.entries[x];
            proof {
                reveal(Seq::filter);
            }
            if word.as_str().unicode_len() == length {
                found.push(word);
                assert(found.deep_view() =~= before.push(word@));
            } else {
                assert(found.deep_view() =~= before);
            }
        }
        assert(self.words().take(n as int) =~= self.words());
        found
    }
}

} // verus!
