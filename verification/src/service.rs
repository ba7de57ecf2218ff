//! The vocabulary store and the matching facade: a reader-writer lock holds
//! the currently-active trie snapshot, lookups read whichever snapshot is
//! current, and a refresh builds a new trie off to the side and installs it
//! in one atomic swap.

use vstd::prelude::*;
use vstd::rwlock::{RwLock, RwLockPredicate, ReadHandle};
use crate::trie::Trie;
use crate::normalize::{content_tokens, normalize_entry, normalize_tokens};

verus! {

broadcast use
    vstd::set::axiom_set_insert_finite,
    vstd::set::axiom_set_insert_len,
;

/// Lock invariant: every published snapshot is a sound trie.
pub struct SnapshotInv;

impl RwLockPredicate<Trie> for SnapshotInv {
    open spec fn inv(self, t: Trie) -> bool {
        t.wf()
    }
}

/// Owns the currently-active trie snapshot behind a reader-writer lock whose
/// critical section covers only the swap itself: many lookups may read
/// concurrently, a refresh builds its trie outside any lock, and a reader
/// always sees one fully-built snapshot, never a mixture.
pub struct VocabularyStore {
    active: RwLock<Trie, SnapshotInv>,
}

impl VocabularyStore {
    /// The lock is governed by the snapshot invariant.
    pub closed spec fn wf(&self) -> bool {
        self.active.pred() == SnapshotInv
    }

    /// Start from a fully-built snapshot.
    pub fn new(initial: Trie) -> (s: Self)
        requires
            initial.wf(),
        ensures
            s.wf(),
    {
        VocabularyStore { active: RwLock::new(initial, Ghost(SnapshotInv)) }
    }

    /// A handle on whichever snapshot is currently active: cheap for readers,
    /// and valid until released even if a replacement happens meanwhile.
    pub fn current<'a>(&'a self) -> (h: ReadHandle<'a, Trie, SnapshotInv>)
        requires
            self.wf(),
        ensures
            h.view().wf(),
    {
        self.active.acquire_read()
    }

    /// Install a fully-built snapshot as current in one atomic step; readers
    /// that already hold a handle keep the old snapshot, later readers see
    /// only the new one.
    pub fn replace(&self, fresh: Trie)
        requires
            self.wf(),
            fresh.wf(),
    {
        let (prev, handle) = self.active.acquire_write();
        handle.release_write(fresh);
    }
}

/// A run of one to three adjacent content tokens starting at `i` is a stored
/// phrase of the vocabulary.
pub open spec fn phrase_window_hit(
    vocab: Set<Seq<Seq<char>>>,
    toks: Seq<Seq<char>>,
    i: int,
    l: int,
) -> bool {
    &&& 0 <= i
    &&& 1 <= l <= 3
    &&& i + l <= toks.len()
    &&& vocab.contains(toks.subrange(i, i + l))
}

/// A text violates a vocabulary exactly when one of its candidate phrases —
/// some run of one to three adjacent content tokens — is stored.
pub open spec fn violation(vocab: Set<Seq<Seq<char>>>, text: Seq<char>) -> bool {
    exists|i: int, l: int| phrase_window_hit(vocab, content_tokens(text), i, l)
}

/// The verdict for a text against one fixed snapshot: a pure function of the
/// two; true iff some candidate phrase of the text is stored. Short-circuits
/// on the first match.
pub fn check_against(snapshot: &Trie, text: &str) -> (r: bool)
    requires
        snapshot.wf(),
    ensures
        r == violation(snapshot@, text@),
{
    let toks = normalize_tokens(text);
    let ghost tv = toks.deep_view();
    let n = toks.len();
    let mut i: usize = 0;
    while i < n
        invariant
            i <= n,
            n == toks.len(),
            tv == toks.deep_view(),
            tv == content_tokens(text@),
            snapshot.wf(),
            forall|i2: int, l2: int| i2 < i ==> !phrase_window_hit(snapshot@, tv, i2, l2),
        decreases n - i,
    {
        if snapshot.search_window(&toks, i, 1) {
            proof {
                assert(phrase_window_hit(snapshot@, tv, i as int, 1));
            }
            return true;
        }
        if n - i >= 2 && snapshot.search_window(&toks, i, 2) {
            proof {
                assert(phrase_window_hit(snapshot@, tv, i as int, 2));
            }
            return true;
        }
        if n - i >= 3 && snapshot.search_window(&toks, i, 3) {
            proof {
                assert(phrase_window_hit(snapshot@, tv, i as int, 3));
            }
            return true;
        }
        proof {
            assert forall|l2: int| !phrase_window_hit(snapshot@, tv, i as int, l2) by {}
        }
        i += 1;
    }
    proof {
        assert forall|i2: int, l2: int| !phrase_window_hit(snapshot@, tv, i2, l2) by {
            if 0 <= i2 && 1 <= l2 && i2 + l2 <= tv.len() {
                assert(i2 < i);
            }
        }
    }
    false
}

/// All phrases that a list of vocabulary entries normalizes to: each entry's
/// full content-token path, entries that normalize to nothing silently
/// dropped.
pub open spec fn vocab_paths(entries: Seq<Seq<char>>) -> Set<Seq<Seq<char>>>
    decreases entries.len(),
{
    if entries.len() == 0 {
        Set::empty()
    } else {
        let rest = vocab_paths(entries.drop_last());
        let toks = content_tokens(entries.last());
        if toks.len() == 0 {
            rest
        } else {
            rest.insert(toks)
        }
    }
}

/// Build a fresh trie from raw vocabulary entries: normalize each entry and
/// store every non-empty result. Plain sequential construction over a
/// structure nothing else can see yet.
pub fn build_vocabulary(entries: &Vec<String>) -> (t: Trie)
    ensures
        t.wf(),
        t@ == vocab_paths(entries.deep_view()),
{
    let ghost ev = entries.deep_view();
    let mut t = Trie::new();
    let mut i: usize = 0;
    proof {
        assert(ev.subrange(0, 0) =~= Seq::<Seq<char>>::empty());
        assert(t@ =~= vocab_paths(ev.subrange(0, 0)));
    }
    while i < entries.len()
        invariant
            i <= entries.len(),
            ev == entries.deep_view(),
            t.wf(),
            t@ == vocab_paths(ev.subrange(0, i as int)),
            t@.len() <= i,
        decreases entries.len() - i,
    {
        let ghost prefix = ev.subrange(0, i as int);
        let ghost prefix2 = ev.subrange(0, i + 1);
        proof {
            assert(prefix2.drop_last() =~= prefix);
            assert(prefix2.last() == ev[i as int]);
        }
        match normalize_entry(entries[i].as_str()) {
            Some(toks) => {
                let ghost tpre = t@;
                proof {
                    t.lemma_wf_view();
                }
                t.insert_tokens(&toks);
                proof {
                    assert(tpre.insert(toks.deep_view()).len() <= tpre.len() + 1);
                }
            },
            None => {},
        }
        i += 1;
    }
    proof {
        assert(ev.subrange(0, entries.len() as int) =~= ev);
    }
    t
}

/// The matching facade: composes the normalizer with the vocabulary store.
pub struct MatchService {
    store: VocabularyStore,
}

impl MatchService {
    pub closed spec fn wf(&self) -> bool {
        self.store.wf()
    }

    /// A service whose vocabulary starts out empty.
    pub fn new() -> (s: Self)
        ensures
            s.wf(),
    {
        MatchService { store: VocabularyStore::new(Trie::new()) }
    }

    /// The violation verdict for a text: true iff some candidate phrase of the
    /// text is stored in the snapshot the check observes. Which snapshot that
    /// is depends on concurrent refreshes, but it is always one fully-formed,
    /// sound snapshot — never a mixture of two.
    pub fn check(&self, text: &str) -> (r: bool)
        requires
            self.wf(),
        ensures
            exists|snapshot: Trie|
                #[trigger] snapshot.wf() && r == violation(snapshot@, text@),
    {
        let h = self.store.current();
        let r = check_against(h.borrow(), text);
        proof {
            assert(h.view().wf() && r == violation(h.view()@, text@));
        }
        h.release_read();
        r
    }

    /// Full refresh: build a brand-new trie from the raw entries off to the
    /// side, then atomically install it. Entries that normalize to nothing
    /// are silently dropped; in-flight checks keep their snapshot.
    pub fn reload(&self, entries: &Vec<String>)
        requires
            self.wf(),
    {
        let fresh = build_vocabulary(entries);
        self.store.replace(fresh);
    }

    /// Apply the outcome of an external vocabulary fetch: on success the
    /// fetched entries replace the vocabulary in full; on failure nothing is
    /// touched — the previous snapshot stays active ("stale but consistent")
    /// and the error is handed back to the caller rather than swallowed.
    pub fn reload_from_fetch(&self, fetched: Result<Vec<String>, String>) -> (r: Result<
        (),
        String,
    >)
        requires
            self.wf(),
        ensures
            fetched is Ok <==> r is Ok,
            fetched is Err ==> r == Result::<(), String>::Err(fetched->Err_0),
    {
        match fetched {
            Ok(entries) => {
                self.reload(&entries);
                Ok(())
            },
            Err(e) => Err(e),
        }
    }

    /// The number of distinct phrases in the snapshot the call observes.
    pub fn word_count(&self) -> (n: usize)
        requires
            self.wf(),
        ensures
            exists|snapshot: Trie| #[trigger] snapshot.wf() && n == snapshot@.len(),
    {
        let h = self.store.current();
        let n = h.borrow().count_words();
        proof {
            assert(h.view().wf() && n == h.view()@.len());
        }
        h.release_read();
        n
    }
}

} // verus!
