use crate::model::{below, holds_word, prefix_closed, root_only, with_word, Paths};
use vstd::prelude::*;

verus! {

/// The model after the words of `words` are stored one after another in `m`.
pub open spec fn with_words(m: Paths, words: Seq<Seq<char>>) -> Paths
    decreases words.len(),
{
    if words.len() == 0 {
        m
    } else {
        with_word(with_words(m, words.drop_last()), words.last())
    }
}

/// After `word` is stored, the stored words are those from before and `word`.
pub proof fn lemma_search_after_insert(m: Paths, word: Seq<char>, query: Seq<char>)
    ensures
        holds_word(with_word(m, word), query) <==> query == word || holds_word(m, query),
{
    if query == word {
        assert(query.is_prefix_of(word));
    }
}

/// After `word` is stored, the paths are those from before and the prefixes of `word`.
pub proof fn lemma_paths_after_insert(m: Paths, word: Seq<char>, path: Seq<char>)
    ensures
        with_word(m, word).dom().contains(path) <==> path.is_prefix_of(word) || m.dom().contains(
            path,
        ),
{
}

/// Whatever words are stored one after another in an empty tree, a search
/// finds exactly those: a word that was stored is found, and nothing else
/// is, a proper prefix of a stored word included.
pub proof fn lemma_search_finds_exactly_the_stored(words: Seq<Seq<char>>, query: Seq<char>)
    ensures
        holds_word(with_words(root_only(), words), query) <==> words.contains(query),
    decreases words.len(),
{
    if words.len() > 0 {
        let front = words.drop_last();
        lemma_search_finds_exactly_the_stored(front, query);
        lemma_search_after_insert(with_words(root_only(), front), words.last(), query);
        if words.contains(query) {
            let i = choose|i: int| 0 <= i < words.len() && words[i] == query;
            if i < words.len() - 1 {
                assert(front[i] == query);
            }
        }
        if front.contains(query) {
            let i = choose|i: int| 0 <= i < front.len() && front[i] == query;
            assert(words[i] == query);
        }
        if query == words.last() {
            assert(words[words.len() - 1] == query);
        }
    }
}

/// Whatever words are stored one after another in an empty tree, a path
/// exists exactly where it is a prefix of one of them, or empty.
pub proof fn lemma_paths_are_the_prefixes(words: Seq<Seq<char>>, path: Seq<char>)
    ensures
        with_words(root_only(), words).dom().contains(path) <==> path.len() == 0 || exists|i: int|
            0 <= i < words.len() && path.is_prefix_of(#[trigger] words[i]),
    decreases words.len(),
{
    if words.len() > 0 {
        let front = words.drop_last();
        lemma_paths_are_the_prefixes(front, path);
        if exists|i: int| 0 <= i < words.len() && path.is_prefix_of(#[trigger] words[i]) {
            let i = choose|i: int| 0 <= i < words.len() && path.is_prefix_of(#[trigger] words[i]);
            if i < words.len() - 1 {
                assert(path.is_prefix_of(front[i]));
            }
        }
        if exists|i: int| 0 <= i < front.len() && path.is_prefix_of(#[trigger] front[i]) {
            let i = choose|i: int| 0 <= i < front.len() && path.is_prefix_of(#[trigger] front[i]);
            assert(path.is_prefix_of(words[i]));
        }
        if path.is_prefix_of(words.last()) {
            assert(path.is_prefix_of(words[words.len() - 1]));
        }
    }
}

/// Storing a word a second time changes nothing: the paths and the marks
/// are those after the first time.
pub proof fn lemma_insert_idempotent(m: Paths, word: Seq<char>)
    ensures
        with_word(with_word(m, word), word) == with_word(m, word),
{
    assert(with_word(with_word(m, word), word) =~= with_word(m, word));
}

/// Storing a word that is stored already changes nothing at all.
pub proof fn lemma_insert_stored_word(m: Paths, word: Seq<char>)
    requires
        holds_word(m, word),
        prefix_closed(m),
    ensures
        with_word(m, word) == m,
{
    assert forall|p: Seq<char>| p.is_prefix_of(word) implies m.dom().contains(p) by {
        let q = word.skip(p.len() as int);
        assert(p + q =~= word);
        assert(m.dom().contains(p + q));
    }
    assert(with_word(m, word) =~= m);
}

/// Below a path that exists lie exactly the stored words that start with it:
/// each such word is there with the path taken off its front, and every word
/// found there is, with the path put in front, a stored word.
pub proof fn lemma_prefix_containment(m: Paths, prefix: Seq<char>)
    requires
        m.dom().contains(prefix),
    ensures
        forall|word: Seq<char>|
            prefix.is_prefix_of(word) && #[trigger] holds_word(m, word) ==> holds_word(
                below(m, prefix),
                word.skip(prefix.len() as int),
            ),
        forall|rest: Seq<char>| #[trigger]
            holds_word(below(m, prefix), rest) ==> holds_word(m, prefix + rest) && prefix.is_prefix_of(
                prefix + rest,
            ),
{
    assert forall|word: Seq<char>|
        prefix.is_prefix_of(word) && #[trigger] holds_word(m, word) implies holds_word(
        below(m, prefix),
        word.skip(prefix.len() as int),
    ) by {
        assert(prefix + word.skip(prefix.len() as int) =~= word);
    }
    assert forall|rest: Seq<char>| #[trigger] holds_word(below(m, prefix), rest) implies holds_word(
        m,
        prefix + rest,
    ) && prefix.is_prefix_of(prefix + rest) by {
        assert((prefix + rest).subrange(0, prefix.len() as int) =~= prefix);
    }
}

/// An empty tree holds no word and has no path but the empty one.
pub proof fn lemma_empty_tree(query: Seq<char>)
    ensures
        !holds_word(root_only(), query),
        root_only().dom().contains(query) <==> query.len() == 0,
{
}

} // verus!
