//! Library-wide laws, stated over the spec functions and views that the
//! public contracts use, and proved once and for all.

use vstd::prelude::*;
use crate::normalize::{candidate_phrases, content_tokens, ngrams_from, split_ws_of};
use crate::service::{phrase_window_hit, violation, vocab_paths};

verus! {

broadcast use
    vstd::set::axiom_set_insert_finite,
    vstd::set::axiom_set_insert_len,
;

/// Round trip: storing a phrase makes a lookup of that exact token path
/// succeed, and leaves the lookup of every other token path as it was — in
/// particular, a path absent before stays absent.
pub proof fn lemma_insert_search_round_trip(
    vocab: Set<Seq<Seq<char>>>,
    p: Seq<Seq<char>>,
    q: Seq<Seq<char>>,
)
    ensures
        vocab.insert(p).contains(p),
        q != p ==> vocab.insert(p).contains(q) == vocab.contains(q),
{
}

/// Idempotence: storing the same phrase twice leaves exactly the vocabulary
/// that storing it once leaves, so the stored count and every lookup agree.
pub proof fn lemma_insert_idempotent(vocab: Set<Seq<Seq<char>>>, p: Seq<Seq<char>>)
    ensures
        vocab.insert(p).insert(p) == vocab.insert(p),
        vocab.finite() ==> vocab.insert(p).insert(p).len() == vocab.insert(p).len(),
{
    assert(vocab.insert(p).insert(p) =~= vocab.insert(p));
}

/// Round trip at the phrase level: once a non-empty phrase string is stored,
/// a lookup of that same string succeeds, and a lookup of any string with a
/// different token path answers as it did before the store.
pub proof fn lemma_phrase_round_trip(vocab: Set<Seq<Seq<char>>>, p: Seq<char>, q: Seq<char>)
    requires
        split_ws_of(p).len() > 0,
    ensures
        vocab.insert(split_ws_of(p)).contains(split_ws_of(p)),
        split_ws_of(q) != split_ws_of(p) ==> vocab.insert(split_ws_of(p)).contains(split_ws_of(q))
            == vocab.contains(split_ws_of(q)),
{
    lemma_insert_search_round_trip(vocab, split_ws_of(p), split_ws_of(q));
}

/// Graceful degradation: a text yields candidate phrases exactly when it has
/// content tokens, so empty or all-stopword input yields an empty sequence
/// rather than an error.
pub proof fn lemma_candidates_iff_tokens(text: Seq<char>)
    ensures
        candidate_phrases(text).len() == 0 <==> content_tokens(text).len() == 0,
{
    let toks = content_tokens(text);
    if toks.len() == 0 {
        assert(candidate_phrases(text) =~= Seq::<Seq<char>>::empty());
    } else {
        assert(ngrams_from(toks, 0).len() > 0);
    }
}

/// Determinism: the candidate phrases of a text are a function of the text
/// alone, so processing the same text twice yields identical, identically
/// ordered sequences.
pub proof fn lemma_process_text_deterministic(
    text: Seq<char>,
    r1: Seq<Seq<char>>,
    r2: Seq<Seq<char>>,
)
    requires
        r1 == candidate_phrases(text),
        r2 == candidate_phrases(text),
    ensures
        r1 == r2,
{
}

/// Every entry that normalizes to a non-empty token path is in the vocabulary
/// built from the full entry list.
pub proof fn lemma_vocab_paths_contains(entries: Seq<Seq<char>>, k: int)
    requires
        0 <= k < entries.len(),
        content_tokens(entries[k]).len() > 0,
    ensures
        vocab_paths(entries).contains(content_tokens(entries[k])),
    decreases entries.len(),
{
    if k == entries.len() - 1 {
        assert(entries.last() == entries[k]);
    } else {
        lemma_vocab_paths_contains(entries.drop_last(), k);
        assert(entries.drop_last()[k] == entries[k]);
    }
}

/// Semantic adjacency: a vocabulary entry whose normalized form has one to
/// three tokens, and whose tokens appear adjacently among a text's content
/// tokens — even if stopwords stood between them in the raw text — makes the
/// text a violation of the vocabulary built from its entry list.
pub proof fn lemma_stored_entry_detected(entries: Seq<Seq<char>>, text: Seq<char>, k: int, i: int)
    requires
        0 <= k < entries.len(),
        1 <= content_tokens(entries[k]).len() <= 3,
        0 <= i,
        i + content_tokens(entries[k]).len() <= content_tokens(text).len(),
        content_tokens(text).subrange(i, i + content_tokens(entries[k]).len()) == content_tokens(
            entries[k],
        ),
    ensures
        violation(vocab_paths(entries), text),
{
    lemma_vocab_paths_contains(entries, k);
    let l = content_tokens(entries[k]).len() as int;
    assert(phrase_window_hit(vocab_paths(entries), content_tokens(text), i, l));
}

} // verus!
