//! The vocabulary corpus: a relational table of terms paired row for row
//! with a vector-index table, filled by an offline ingestion pass and read by
//! the similar-word query. It obeys the same dual-table discipline as the
//! note corpus, with its own dimension.

use vstd::prelude::*;
use crate::errors::EngineError;
use crate::jsoncodec::{json_of, vector_to_json};
use crate::planner::{best_dist, has_match_for, match_lt, rank_matches, Candidate};
use crate::store::{copy_vector, IndexRow, SearchMatch};

verus! {

/// A vocabulary term as handed to callers.
#[derive(Debug)]
pub struct Word {
    pub id: i64,
    pub text: String,
}

/// Relational vocabulary row. `embedding_json` is the serialized form of
/// `embedding` as the storage layer persists it.
pub struct WordRow {
    pub id: i64,
    pub text: String,
    pub embedding: Vec<i64>,
    pub embedding_json: String,
}

/// The vocabulary corpus state.
pub struct WordStore {
    pub dim: usize,
    pub next_word_id: i64,
    pub words: Vec<WordRow>,
    pub word_index: Vec<IndexRow>,
}

impl WordStore {
    /// A word with this id exists.
    pub open spec fn has_word(self, id: i64) -> bool {
        exists|i: int| 0 <= i < self.words@.len() && (#[trigger] self.words@[i]).id == id
    }

    /// The index of the word with this id (meaningful when `has_word` holds).
    pub open spec fn word_index_of(self, id: i64) -> int {
        choose|i: int| 0 <= i < self.words@.len() && (#[trigger] self.words@[i]).id == id
    }

    /// Well-formedness: unique ids below the cursor, the corpus dimension
    /// everywhere, coherent serialized forms, and the index table shadowing
    /// the relational table row for row.
    pub open spec fn wf(self) -> bool {
        &&& forall|i: int, j: int| 0 <= i < self.words@.len() && 0 <= j < self.words@.len()
            && i != j ==> (#[trigger] self.words@[i]).id != (#[trigger] self.words@[j]).id
        &&& forall|i: int| 0 <= i < self.words@.len() ==> {
            let w = #[trigger] self.words@[i];
            &&& w.id < self.next_word_id
            &&& w.embedding@.len() == self.dim
            &&& w.embedding_json@ == json_of(w.embedding@)
        }
        &&& self.word_index@.len() == self.words@.len()
        &&& forall|i: int| 0 <= i < self.words@.len() ==> {
            let w = #[trigger] self.words@[i];
            &&& self.word_index@[i].id == w.id
            &&& self.word_index@[i].embedding@ == w.embedding@
        }
    }

    /// An empty vocabulary corpus of the given dimension.
    pub fn new(dim: usize) -> (s: WordStore)
        ensures
            s.wf(),
            s.dim == dim,
            s.next_word_id == 1,
            s.words@.len() == 0,
            s.word_index@.len() == 0,
    {
        WordStore { dim, next_word_id: 1, words: Vec::new(), word_index: Vec::new() }
    }

    /// Stores one term: appends the relational row and, as the same logical
    /// unit, the paired index row under the same fresh id. A vector of the
    /// wrong dimension rejects the write and leaves the corpus untouched.
    pub fn insert_word(&mut self, text: String, embedding: Vec<i64>)
        -> (r: Result<i64, EngineError>)
        requires
            old(self).wf(),
            old(self).next_word_id < 0x7fff_ffff_ffff_ffff,
        ensures
            final(self).wf(),
            r is Ok <==> embedding@.len() == old(self).dim,
            r is Err ==> (r == Err::<i64, EngineError>(EngineError::DimensionMismatch)
                && *final(self) == *old(self)),
            r matches Ok(id) ==> {
                &&& id == old(self).next_word_id
                &&& final(self).dim == old(self).dim
                &&& final(self).next_word_id == old(self).next_word_id + 1
                &&& final(self).words@.len() == old(self).words@.len() + 1
                &&& forall|i: int| 0 <= i < old(self).words@.len()
                    ==> #[trigger] final(self).words@[i] == old(self).words@[i]
                &&& final(self).words@.last().id == id
                &&& final(self).words@.last().text@ == text@
                &&& final(self).words@.last().embedding@ == embedding@
                &&& final(self).word_index@.len() == old(self).word_index@.len() + 1
                &&& forall|i: int| 0 <= i < old(self).word_index@.len()
                    ==> #[trigger] final(self).word_index@[i] == old(self).word_index@[i]
                &&& final(self).word_index@.last().id == id
                &&& final(self).word_index@.last().embedding@ == embedding@
            },
    {
        if embedding.len() != self.dim {
            return Err(EngineError::DimensionMismatch);
        }
        let id = self.next_word_id;
        let embedding_json = vector_to_json(&embedding);
        let index_embedding = copy_vector(&embedding);
        self.words.push(WordRow { id, text, embedding, embedding_json });
        self.word_index.push(IndexRow { id, embedding: index_embedding });
        self.next_word_id = id + 1;
        Ok(id)
    }

    /// Linear search for the word with this id.
    #[verifier::loop_isolation(false)]
    fn find_word(&self, id: i64) -> (r: Option<usize>)
        ensures
            r matches Some(ix) ==> (ix < self.words@.len() && self.words@[ix as int].id == id),
            r is None ==> !self.has_word(id),
    {
        let mut i: usize = 0;
        while i < self.words.len()
            invariant
                i <= self.words@.len(),
                forall|w: int| 0 <= w < i ==> (#[trigger] self.words@[w]).id != id,
            decreases self.words@.len() - i,
        {
            if self.words[i].id == id {
                return Some(i);
            }
            i += 1;
        }
        None
    }
}

/// The candidates that survive the distance bound and resolve to a stored
/// word, in candidate order.
pub open spec fn resolved_word_matches(s: WordStore, cands: Seq<Candidate>, bound: i64)
    -> Seq<SearchMatch>
    decreases cands.len(),
{
    if cands.len() == 0 {
        Seq::empty()
    } else {
        let rest = resolved_word_matches(s, cands.drop_last(), bound);
        let c = cands.last();
        if c.distance <= bound && s.has_word(c.chunk_id) {
            rest.push(SearchMatch { note_id: c.chunk_id, distance: c.distance })
        } else {
            rest
        }
    }
}

proof fn lemma_resolved_word_take_step(s: WordStore, cands: Seq<Candidate>, bound: i64, i: int)
    requires
        0 <= i < cands.len(),
    ensures
        resolved_word_matches(s, cands.take(i + 1), bound)
            == if cands[i].distance <= bound && s.has_word(cands[i].chunk_id) {
            resolved_word_matches(s, cands.take(i), bound).push(
                SearchMatch { note_id: cands[i].chunk_id, distance: cands[i].distance })
        } else {
            resolved_word_matches(s, cands.take(i), bound)
        },
{
    assert(cands.take(i + 1).drop_last() =~= cands.take(i));
    assert(cands.take(i + 1).last() == cands[i]);
}

proof fn lemma_resolved_word_props(s: WordStore, cands: Seq<Candidate>, bound: i64)
    ensures
        forall|i: int| 0 <= i < resolved_word_matches(s, cands, bound).len() ==> {
            let m = #[trigger] resolved_word_matches(s, cands, bound)[i];
            &&& m.distance <= bound
            &&& s.has_word(m.note_id)
        },
    decreases cands.len(),
{
    if cands.len() > 0 {
        lemma_resolved_word_props(s, cands.drop_last(), bound);
        let r = resolved_word_matches(s, cands, bound);
        let rest = resolved_word_matches(s, cands.drop_last(), bound);
        assert forall|i: int| 0 <= i < r.len() implies {
            let m = #[trigger] r[i];
            &&& m.distance <= bound
            &&& s.has_word(m.note_id)
        } by {
            if i < rest.len() {
                assert(r[i] == rest[i]);
            }
        }
    }
}

impl WordStore {
    /// Ranks nearest-neighbor candidates against the vocabulary: keeps those
    /// within `bound` that resolve to a stored word, orders by rising
    /// distance (word id as tie break), and returns at most `k` words, each
    /// with its stored text.
    #[verifier::loop_isolation(false)]
    pub fn find_similar_words(&self, candidates: &Vec<Candidate>, k: usize, bound: i64)
        -> (r: Vec<Word>)
        requires
            self.wf(),
        ensures
            r@.len() <= k,
            forall|i: int, j: int| 0 <= i < j < r@.len()
                ==> match_lt(
                    SearchMatch {
                        note_id: (#[trigger] r@[i]).id,
                        distance: best_dist(
                            resolved_word_matches(*self, candidates@, bound), r@[i].id) as i64,
                    },
                    SearchMatch {
                        note_id: (#[trigger] r@[j]).id,
                        distance: best_dist(
                            resolved_word_matches(*self, candidates@, bound), r@[j].id) as i64,
                    }),
            forall|i: int| 0 <= i < r@.len() ==> {
                let w = #[trigger] r@[i];
                &&& self.has_word(w.id)
                &&& w.text@ == self.words@[self.word_index_of(w.id)].text@
                &&& has_match_for(resolved_word_matches(*self, candidates@, bound), w.id)
                &&& best_dist(resolved_word_matches(*self, candidates@, bound), w.id) <= bound
            },
            forall|id: i64|
                #[trigger] has_match_for(resolved_word_matches(*self, candidates@, bound), id)
                ==> ((exists|i: int| 0 <= i < r@.len() && (#[trigger] r@[i]).id == id)
                    || (r@.len() == k && (k == 0 || match_lt(
                        SearchMatch {
                            note_id: r@[k - 1].id,
                            distance: best_dist(
                                resolved_word_matches(*self, candidates@, bound),
                                r@[k - 1].id) as i64,
                        },
                        SearchMatch {
                            note_id: id,
                            distance: best_dist(
                                resolved_word_matches(*self, candidates@, bound), id) as i64,
                        })))),
    {
        let ghost resolved = resolved_word_matches(*self, candidates@, bound);

        let mut ms: Vec<SearchMatch> = Vec::new();
        let mut i: usize = 0;
        while i < candidates.len()
            invariant
                i <= candidates@.len(),
                ms@ == resolved_word_matches(*self, candidates@.take(i as int), bound),
            decreases candidates@.len() - i,
        {
            proof {
                lemma_resolved_word_take_step(*self, candidates@, bound, i as int);
            }
            let c = candidates[i];
            if c.distance <= bound {
                match self.find_word(c.chunk_id) {
                    Some(ix) => {
                        proof {
                            assert(self.has_word(c.chunk_id)) by {
                                assert(self.words@[ix as int].id == c.chunk_id);
                            }
                        }
                        ms.push(SearchMatch { note_id: c.chunk_id, distance: c.distance });
                    },
                    None => {},
                }
            }
            i += 1;
        }
        proof {
            assert(candidates@.take(candidates@.len() as int) =~= candidates@);
            assert(ms@ == resolved);
        }

        let ghost msv = ms@;
        let ranked = rank_matches(ms, k);

        let mut out: Vec<Word> = Vec::new();
        let mut i: usize = 0;
        while i < ranked.len()
            invariant
                i <= ranked@.len(),
                msv == resolved,
                ranked@.len() <= k,
                forall|a: int, b: int| 0 <= a < b < ranked@.len()
                    ==> match_lt(#[trigger] ranked@[a], #[trigger] ranked@[b]),
                forall|a: int| 0 <= a < ranked@.len() ==> {
                    let m = #[trigger] ranked@[a];
                    &&& has_match_for(resolved, m.note_id)
                    &&& m.distance == best_dist(resolved, m.note_id)
                },
                forall|id: i64| #[trigger] has_match_for(resolved, id)
                    ==> ((exists|a: int| 0 <= a < ranked@.len()
                            && (#[trigger] ranked@[a]).note_id == id)
                        || (ranked@.len() == k && (k == 0 || match_lt(ranked@[k - 1],
                            SearchMatch {
                                note_id: id,
                                distance: best_dist(resolved, id) as i64,
                            })))),
                out@.len() == i,
                forall|a: int| 0 <= a < i ==> {
                    let w = #[trigger] out@[a];
                    &&& w.id == ranked@[a].note_id
                    &&& self.has_word(w.id)
                    &&& w.text@ == self.words@[self.word_index_of(w.id)].text@
                },
            decreases ranked@.len() - i,
        {
            let m = ranked[i];
            proof {
                lemma_resolved_word_props(*self, candidates@, bound);
                lemma_word_best_exists(resolved, m.note_id);
            }
            match self.find_word(m.note_id) {
                Some(ix) => {
                    proof {
                        let ci = self.word_index_of(m.note_id);
                        assert(0 <= ci < self.words@.len() && self.words@[ci].id == m.note_id);
                        assert(ci == ix as int);
                    }
                    out.push(Word { id: m.note_id, text: self.words[ix].text.clone() });
                },
                None => {
                    proof {
                        assert(false);
                    }
                },
            }
            i += 1;
        }
        proof {
            assert forall|i2: int| 0 <= i2 < out@.len() implies {
                let w = #[trigger] out@[i2];
                &&& has_match_for(resolved, w.id)
                &&& best_dist(resolved, w.id) <= bound
            } by {
                assert(out@[i2].id == ranked@[i2].note_id);
                lemma_resolved_word_props(*self, candidates@, bound);
                lemma_word_best_exists(resolved, out@[i2].id);
            }
            assert forall|a: int, b: int| 0 <= a < b < out@.len()
                implies match_lt(
                    SearchMatch {
                        note_id: (#[trigger] out@[a]).id,
                        distance: best_dist(resolved, out@[a].id) as i64,
                    },
                    SearchMatch {
                        note_id: (#[trigger] out@[b]).id,
                        distance: best_dist(resolved, out@[b].id) as i64,
                    }) by {
                assert(match_lt(ranked@[a], ranked@[b]));
                assert(ranked@[a].note_id == out@[a].id);
                assert(ranked@[b].note_id == out@[b].id);
                assert(ranked@[a].distance == best_dist(resolved, out@[a].id));
                assert(ranked@[b].distance == best_dist(resolved, out@[b].id));
            }
            assert forall|id: i64| #[trigger] has_match_for(resolved, id)
                implies ((exists|i2: int| 0 <= i2 < out@.len()
                        && (#[trigger] out@[i2]).id == id)
                    || (out@.len() == k && (k == 0 || match_lt(
                        SearchMatch {
                            note_id: out@[k - 1].id,
                            distance: best_dist(resolved, out@[k - 1].id) as i64,
                        },
                        SearchMatch {
                            note_id: id,
                            distance: best_dist(resolved, id) as i64,
                        })))) by {
                if exists|a: int| 0 <= a < ranked@.len()
                    && (#[trigger] ranked@[a]).note_id == id {
                    let a = choose|a: int| 0 <= a < ranked@.len()
                        && (#[trigger] ranked@[a]).note_id == id;
                    assert(out@[a].id == id);
                } else {
                    assert(ranked@.len() == k);
                    if k > 0 {
                        assert(match_lt(ranked@[k - 1], SearchMatch {
                            note_id: id,
                            distance: best_dist(resolved, id) as i64,
                        }));
                        assert(ranked@[k - 1].note_id == out@[k - 1].id);
                        assert(ranked@[k - 1].distance
                            == best_dist(resolved, out@[k - 1].id));
                    }
                }
            }
        }
        out
    }

}

/// The best distance of a note's matches is attained by one of them.
proof fn lemma_word_best_exists(ms: Seq<SearchMatch>, id: i64)
    requires
        has_match_for(ms, id),
    ensures
        exists|i: int| 0 <= i < ms.len() && (#[trigger] ms[i]).note_id == id
            && ms[i].distance == best_dist(ms, id),
    decreases ms.len(),
{
    let dl = ms.drop_last();
    if has_match_for(dl, id) {
        lemma_word_best_exists(dl, id);
        let w = choose|w: int| 0 <= w < dl.len() && (#[trigger] dl[w]).note_id == id
            && dl[w].distance == best_dist(dl, id);
        assert(ms[w] == dl[w]);
        if ms.last().note_id == id && ms.last().distance < best_dist(dl, id) {
            assert(ms[ms.len() - 1].note_id == id
                && ms[ms.len() - 1].distance == best_dist(ms, id));
        }
    } else {
        assert(ms.last().note_id == id) by {
            let w = choose|w: int| 0 <= w < ms.len() && (#[trigger] ms[w]).note_id == id;
            if w < ms.len() - 1 {
                assert(dl[w].note_id == id);
            }
        }
        assert(ms[ms.len() - 1].note_id == id && ms[ms.len() - 1].distance == best_dist(ms, id));
    }
}

} // verus!
