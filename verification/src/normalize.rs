//! Text normalization: lowercase the input, split it on whitespace, drop
//! stopwords, stem each surviving token, and emit candidate phrases
//! (unigrams, bigrams and trigrams over the filtered token sequence).

use vstd::prelude::*;
use stopwords::Stopwords;

verus! {

/// The lowercase form of a character sequence, as `str::to_lowercase` computes it.
pub uninterp spec fn lower_of(s: Seq<char>) -> Seq<char>;

/// The whitespace-separated pieces of a character sequence, as
/// `str::split_whitespace` computes them.
pub uninterp spec fn split_ws_of(s: Seq<char>) -> Seq<Seq<char>>;

/// Whether a token is in the English stopword list of the `stopwords` crate.
pub uninterp spec fn is_stop(w: Seq<char>) -> bool;

/// The stem of a token, as the Snowball English stemmer computes it.
pub uninterp spec fn stem_of(w: Seq<char>) -> Seq<char>;

/// Relies on `str::to_lowercase`: the result depends on the characters alone.
#[verifier::external_body]
pub(crate) fn lowercase(s: &str) -> (r: String)
    ensures
        r@ == lower_of(s@),
{
    s.to_lowercase()
}

/// Relies on `str::split_whitespace`: the pieces depend on the characters
/// alone.
#[verifier::external_body]
pub(crate) fn split_into_tokens(s: &str) -> (r: Vec<String>)
    ensures
        r.deep_view() == split_ws_of(s@),
{
    s.split_whitespace().map(|w| w.to_string()).collect()
}

/// Relies on `stopwords::Spark::stopwords` for English: membership in the
/// fixed, compiled-in word list depends on the token alone.
#[verifier::external_body]
fn is_stopword(w: &str) -> (r: bool)
    ensures
        r == is_stop(w@),
{
    match stopwords::Spark::stopwords(stopwords::Language::English) {
        Some(list) => list.contains(&w),
        None => false,
    }
}

/// Relies on `rust_stemmers::Stemmer::create` and `Stemmer::stem` with the
/// Snowball English algorithm: the stem depends on the token alone.
#[verifier::external_body]
fn stem_token(w: &str) -> (r: String)
    ensures
        r@ == stem_of(w@),
{
    rust_stemmers::Stemmer::create(rust_stemmers::Algorithm::English).stem(w).into_owned()
}

/// The raw tokens of a text: lowercase it, then split on whitespace.
pub open spec fn raw_tokens(text: Seq<char>) -> Seq<Seq<char>> {
    split_ws_of(lower_of(text))
}

/// Drop stopwords from a token sequence, then stem each survivor.
pub open spec fn kept_stemmed(raw: Seq<Seq<char>>) -> Seq<Seq<char>> {
    raw.filter(|w: Seq<char>| !is_stop(w)).map_values(|w: Seq<char>| stem_of(w))
}

/// The content tokens of a text: its raw tokens with stopwords removed and
/// each remaining token stemmed. Candidate phrases and stored vocabulary
/// entries are both built from these.
pub open spec fn content_tokens(text: Seq<char>) -> Seq<Seq<char>> {
    kept_stemmed(raw_tokens(text))
}

/// Lowercase, split, filter and stem: the executable form of `content_tokens`.
pub fn normalize_tokens(text: &str) -> (r: Vec<String>)
    ensures
        r.deep_view() == content_tokens(text@),
{
    let lowered = lowercase(text);
    let raw = split_into_tokens(lowered.as_str());
    let ghost rawv = raw.deep_view();
    let mut out: Vec<String> = Vec::new();
    let mut i: usize = 0;
    proof {
        assert(rawv.subrange(0, 0) =~= Seq::<Seq<char>>::empty());
        assert(out.deep_view() =~= kept_stemmed(rawv.subrange(0, 0)));
    }
    while i < raw.len()
        invariant
            i <= raw.len(),
            rawv == raw.deep_view(),
            rawv == raw_tokens(text@),
            out.deep_view() == kept_stemmed(rawv.subrange(0, i as int)),
        decreases raw.len() - i,
    {
        let ghost prefix = rawv.subrange(0, i as int);
        let ghost prefix2 = rawv.subrange(0, i + 1);
        proof {
            assert(prefix2.drop_last() =~= prefix);
            assert(prefix2.last() == rawv[i as int]);
        }
        if !is_stopword(raw[i].as_str()) {
            let stemmed = stem_token(raw[i].as_str());
            out.push(stemmed);
        }
        proof {
            reveal(Seq::filter);
            let pred = |w: Seq<char>| !is_stop(w);
            if pred(rawv[i as int]) {
                assert(prefix2.filter(pred) =~= prefix.filter(pred).push(rawv[i as int]));
                assert(kept_stemmed(prefix2) =~= kept_stemmed(prefix).push(stem_of(rawv[i as int])));
            } else {
                assert(prefix2.filter(pred) =~= prefix.filter(pred));
                assert(kept_stemmed(prefix2) =~= kept_stemmed(prefix));
            }
        }
        i += 1;
    }
    proof {
        assert(rawv.subrange(0, raw.len() as int) =~= rawv);
    }
    out
}

/// Two tokens joined by a single separator.
pub open spec fn joined2(a: Seq<char>, b: Seq<char>) -> Seq<char> {
    a + seq![' '] + b
}

/// Three tokens joined by single separators.
pub open spec fn joined3(a: Seq<char>, b: Seq<char>, c: Seq<char>) -> Seq<char> {
    a + seq![' '] + b + seq![' '] + c
}

/// The phrases emitted at one start index: the unigram there, then the bigram
/// and the trigram where enough tokens follow.
pub open spec fn ngrams_at(toks: Seq<Seq<char>>, i: int) -> Seq<Seq<char>> {
    let unigrams = seq![toks[i]];
    let with_bi = if i + 1 < toks.len() {
        unigrams.push(joined2(toks[i], toks[i + 1]))
    } else {
        unigrams
    };
    if i + 2 < toks.len() {
        with_bi.push(joined3(toks[i], toks[i + 1], toks[i + 2]))
    } else {
        with_bi
    }
}

/// All phrases emitted from start index `i` on, in left-to-right order.
pub open spec fn ngrams_from(toks: Seq<Seq<char>>, i: int) -> Seq<Seq<char>>
    decreases toks.len() - i,
{
    if 0 <= i < toks.len() {
        ngrams_at(toks, i) + ngrams_from(toks, i + 1)
    } else {
        Seq::empty()
    }
}

/// The ordered candidate phrases of a text: every unigram, bigram and trigram
/// over its content tokens.
pub open spec fn candidate_phrases(text: Seq<char>) -> Seq<Seq<char>> {
    ngrams_from(content_tokens(text), 0)
}

/// Turn raw text into its ordered sequence of candidate phrases, each phrase
/// canonically represented as its tokens joined by a single separator.
pub fn process_text(text: &str) -> (r: Vec<String>)
    ensures
        r.deep_view() == candidate_phrases(text@),
{
    let toks = normalize_tokens(text);
    let ghost tv = toks.deep_view();
    let mut phrases: Vec<String> = Vec::new();
    let mut i: usize = 0;
    proof {
        assert(phrases.deep_view() + ngrams_from(tv, 0) =~= ngrams_from(tv, 0));
    }
    while i < toks.len()
        invariant
            i <= toks.len(),
            tv == toks.deep_view(),
            tv == content_tokens(text@),
            phrases.deep_view() + ngrams_from(tv, i as int) == ngrams_from(tv, 0),
        decreases toks.len() - i,
    {
        let ghost before = phrases.deep_view();
        proof {
            reveal_strlit(" ");
            assert(" "@ =~= seq![' ']);
        }
        phrases.push(toks[i].clone());
        if i + 1 < toks.len() {
            let mut bi = toks[i].clone();
            bi.append(" ");
            bi.append(toks[i + 1].as_str());
            proof {
                assert(bi@ == joined2(tv[i as int], tv[i as int + 1]));
            }
            phrases.push(bi);
            if i + 2 < toks.len() {
                let mut tri = toks[i].clone();
                tri.append(" ");
                tri.append(toks[i + 1].as_str());
                tri.append(" ");
                tri.append(toks[i + 2].as_str());
                proof {
                    assert(tri@ == joined3(tv[i as int], tv[i as int + 1], tv[i as int + 2]));
                }
                phrases.push(tri);
            }
        }
        proof {
            assert(phrases.deep_view() =~= before + ngrams_at(tv, i as int));
            assert((before + ngrams_at(tv, i as int)) + ngrams_from(tv, i as int + 1)
                =~= before + (ngrams_at(tv, i as int) + ngrams_from(tv, i as int + 1)));
            assert(ngrams_at(tv, i as int) + ngrams_from(tv, i as int + 1)
                == ngrams_from(tv, i as int));
        }
        i += 1;
    }
    phrases
}

/// Run the full pipeline on one word and keep only the first produced phrase,
/// the single stemmed token; nothing comes back when the word is empty or
/// entirely stopwords.
pub fn process_single_word(word: &str) -> (r: Option<String>)
    ensures
        match r {
            Some(s) => candidate_phrases(word@).len() > 0 && s@ == candidate_phrases(word@)[0],
            None => candidate_phrases(word@).len() == 0,
        },
{
    let phrases = process_text(word);
    if phrases.len() > 0 {
        Some(phrases[0].clone())
    } else {
        None
    }
}

/// Normalize one vocabulary entry to its full sequence of content tokens, so
/// that a multi-word entry is stored as one phrase; nothing comes back when
/// the entry is empty or entirely stopwords.
pub fn normalize_entry(word: &str) -> (r: Option<Vec<String>>)
    ensures
        match r {
            Some(toks) => content_tokens(word@).len() > 0 && toks.deep_view() == content_tokens(
                word@,
            ),
            None => content_tokens(word@).len() == 0,
        },
{
    let toks = normalize_tokens(word);
    if toks.len() > 0 {
        Some(toks)
    } else {
        None
    }
}

} // verus!
