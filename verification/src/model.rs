use vstd::prelude::*;

verus! {

/// The model of a tree of nodes: every path that exists below its root,
/// the empty one included, with the mark of the node that the path reaches.
pub type Paths = Map<Seq<char>, bool>;

/// The model of a tree with a single node that ends no word.
pub open spec fn root_only() -> Paths {
    Map::new(|p: Seq<char>| p.len() == 0, |p: Seq<char>| false)
}

/// The model after `word` is stored: every prefix of `word` is a path, and the
/// path `word` itself is marked; nothing else changes.
pub open spec fn with_word(m: Paths, word: Seq<char>) -> Paths {
    Map::new(
        |p: Seq<char>| m.dom().contains(p) || p.is_prefix_of(word),
        |p: Seq<char>| p == word || (m.dom().contains(p) && m[p]),
    )
}

/// The model of what hangs below the path `prefix`: the paths of `m` that
/// start with `prefix`, each with `prefix` taken off.
pub open spec fn below(m: Paths, prefix: Seq<char>) -> Paths {
    Map::new(|q: Seq<char>| m.dom().contains(prefix + q), |q: Seq<char>| m[prefix + q])
}

/// Whether `word` is stored as a complete word in the model `m`.
pub open spec fn holds_word(m: Paths, word: Seq<char>) -> bool {
    m.dom().contains(word) && m[word]
}

/// Whether every front part of a path of `m` is a path of `m` too.
pub open spec fn prefix_closed(m: Paths) -> bool {
    forall|p: Seq<char>, q: Seq<char>| #[trigger] m.dom().contains(p + q) ==> m.dom().contains(p)
}

/// The words that the vectors of `words` spell, in the same order.
pub open spec fn spellings(words: Seq<Vec<char>>) -> Seq<Seq<char>> {
    Seq::new(words.len(), |i: int| words[i]@)
}

/// One more vector spells one more word at the end.
pub proof fn lemma_spellings_push(words: Seq<Vec<char>>, word: Vec<char>)
    ensures
        spellings(words.push(word)) == spellings(words) + seq![word@],
{
    assert(spellings(words.push(word)) =~= spellings(words) + seq![word@]);
}

/// An item occurs in two sequences put together where it occurs in one of them.
pub proof fn lemma_contains_concat<T>(a: Seq<T>, b: Seq<T>, w: T)
    ensures
        (a + b).contains(w) <==> a.contains(w) || b.contains(w),
{
    if (a + b).contains(w) {
        let i = choose|i: int| 0 <= i < (a + b).len() && (a + b)[i] == w;
        if i < a.len() {
            assert(a[i] == w);
        } else {
            assert(b[i - a.len()] == w);
        }
    }
    if a.contains(w) {
        let i = choose|i: int| 0 <= i < a.len() && a[i] == w;
        assert((a + b)[i] == w);
    }
    if b.contains(w) {
        let i = choose|i: int| 0 <= i < b.len() && b[i] == w;
        assert((a + b)[a.len() + i] == w);
    }
}

/// A path that starts as `word` does and is not empty is a prefix of `word`
/// exactly when its rest is a prefix of the rest of `word`.
pub proof fn lemma_prefix_first(p: Seq<char>, word: Seq<char>)
    requires
        p.len() > 0,
        word.len() > 0,
        p[0] == word[0],
    ensures
        p.is_prefix_of(word) <==> p.drop_first().is_prefix_of(word.drop_first()),
{
    let q = p.drop_first();
    let rest = word.drop_first();
    if p.is_prefix_of(word) {
        assert(q =~= rest.subrange(0, q.len() as int)) by {
            assert forall|i: int| 0 <= i < q.len() implies q[i] == rest[i] by {
                assert(p[i + 1] == word.subrange(0, p.len() as int)[i + 1]);
            }
        }
    }
    if q.is_prefix_of(rest) {
        assert(p =~= word.subrange(0, p.len() as int)) by {
            assert forall|i: int| 0 <= i < p.len() implies p[i] == word[i] by {
                if i > 0 {
                    assert(q[i - 1] == rest.subrange(0, q.len() as int)[i - 1]);
                }
            }
        }
    }
}

/// A sequence with one more character is a prefix of `w` where the sequence
/// is one and `w` goes on with that character.
pub proof fn lemma_prefix_push(prefix: Seq<char>, c: char, w: Seq<char>)
    ensures
        prefix.push(c).is_prefix_of(w) <==> prefix.is_prefix_of(w) && w.len() > prefix.len()
            && w[prefix.len() as int] == c,
{
    let longer = prefix.push(c);
    let n = prefix.len() as int;
    if longer.is_prefix_of(w) {
        assert(longer[n] == w.subrange(0, n + 1)[n]);
        assert(prefix =~= w.subrange(0, n)) by {
            assert forall|i: int| 0 <= i < n implies prefix[i] == w[i] by {
                assert(longer[i] == w.subrange(0, n + 1)[i]);
            }
        }
    }
    if prefix.is_prefix_of(w) && w.len() > n && w[n] == c {
        assert(longer =~= w.subrange(0, n + 1)) by {
            assert forall|i: int| 0 <= i < n + 1 implies longer[i] == w[i] by {
                if i < n {
                    assert(prefix[i] == w.subrange(0, n)[i]);
                }
            }
        }
    }
}

} // verus!
