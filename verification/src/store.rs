//! The note corpus: a relational table of notes, a relational table of their
//! chunks, and a vector-index table shadowing the chunk table row for row.
//!
//! This module is the consistency core. Every write keeps the chunk table and
//! its index table paired one to one (same identity, same vector, created and
//! deleted together), every chunk's owner exists, a note's centroid is the
//! elementwise mean of its chunks' vectors, and deleting a note cascades to
//! its chunks, their index rows and its tag links. Each operation is a single
//! state transition of this value; the storage layer replays each transition
//! inside one transaction.

use vstd::prelude::*;
use crate::errors::EngineError;
use crate::jsoncodec::{json_of, vector_to_json};
use crate::vectors::{all_dims, centroid_val, compute_centroid, seq_views};

verus! {

/// A tag, identified by its name.
#[derive(Debug)]
pub struct Tag {
    pub id: String,
}

/// A tag attached to a note.
#[derive(Debug)]
pub struct NoteTagLink {
    pub note_id: i64,
    pub tag_id: String,
}

/// Relational note row. `centroid_json` is the serialized form of `centroid`
/// as the storage layer persists it.
pub struct NoteRow {
    pub id: i64,
    pub content: String,
    pub centroid: Vec<i64>,
    pub centroid_json: String,
    pub created_at: i64,
    pub updated_at: i64,
}

/// Relational chunk row. `embedding_json` is the serialized form of
/// `embedding` as the storage layer persists it.
pub struct ChunkRow {
    pub id: i64,
    pub note_id: i64,
    pub text: String,
    pub embedding: Vec<i64>,
    pub embedding_json: String,
}

/// A note as handed to callers: the relational fields with the tags joined
/// in. The embedding is the stored centroid.
#[derive(Debug)]
pub struct Note {
    pub id: i64,
    pub content: String,
    pub average_sentence_embedding: Vec<i64>,
    pub created_at: i64,
    pub updated_at: i64,
    pub tags: Vec<Tag>,
}

/// One ranked similarity result: an owning note and the distance of its
/// closest matching chunk.
#[derive(Clone, Copy, Debug, PartialEq, Eq, Structural)]
pub struct SearchMatch {
    pub note_id: i64,
    pub distance: i64,
}

/// Vector-index shadow row, keyed by the id of the chunk it mirrors.
pub struct IndexRow {
    pub id: i64,
    pub embedding: Vec<i64>,
}

/// An embedded chunk ready for insertion: a text segment, its vector, and the
/// vector's serialized form.
pub struct ChunkInput {
    pub text: String,
    pub embedding: Vec<i64>,
    pub embedding_json: String,
}

/// A chunk input is coherent when its serialized form matches its vector.
pub open spec fn chunk_input_wf(c: ChunkInput) -> bool {
    c.embedding_json@ == json_of(c.embedding@)
}

/// The vectors of a sequence of chunk inputs.
pub open spec fn embeddings_of(chunks: Seq<ChunkInput>) -> Seq<Seq<i64>> {
    chunks.map_values(|c: ChunkInput| c.embedding@)
}

/// The note corpus state.
pub struct NoteStore {
    pub dim: usize,
    pub next_note_id: i64,
    pub next_chunk_id: i64,
    pub notes: Vec<NoteRow>,
    pub chunks: Vec<ChunkRow>,
    pub chunk_index: Vec<IndexRow>,
    pub tags: Vec<Tag>,
    pub note_tags: Vec<NoteTagLink>,
}

impl NoteStore {
    /// A note with this id exists.
    pub open spec fn has_note(self, id: i64) -> bool {
        exists|i: int| 0 <= i < self.notes@.len() && (#[trigger] self.notes@[i]).id == id
    }

    /// A chunk with this id exists.
    pub open spec fn has_chunk(self, id: i64) -> bool {
        exists|i: int| 0 <= i < self.chunks@.len() && (#[trigger] self.chunks@[i]).id == id
    }

    /// A tag with this name exists.
    pub open spec fn has_tag(self, id: Seq<char>) -> bool {
        exists|i: int| 0 <= i < self.tags@.len() && (#[trigger] self.tags@[i]).id@ == id
    }

    /// A link attaching this tag to this note exists.
    pub open spec fn has_link(self, note_id: i64, tag_id: Seq<char>) -> bool {
        exists|i: int| 0 <= i < self.note_tags@.len()
            && (#[trigger] self.note_tags@[i]).note_id == note_id
            && self.note_tags@[i].tag_id@ == tag_id
    }

    /// The index of the note with this id (meaningful when `has_note` holds).
    pub open spec fn note_index_of(self, id: i64) -> int {
        choose|i: int| 0 <= i < self.notes@.len() && (#[trigger] self.notes@[i]).id == id
    }

    /// The index of the chunk with this id (meaningful when `has_chunk` holds).
    pub open spec fn chunk_index_of(self, id: i64) -> int {
        choose|i: int| 0 <= i < self.chunks@.len() && (#[trigger] self.chunks@[i]).id == id
    }

    /// The note that owns the chunk with this id.
    pub open spec fn chunk_owner(self, id: i64) -> i64 {
        self.chunks@[self.chunk_index_of(id)].note_id
    }

    /// Well-formedness: the store invariant that every operation preserves.
    pub open spec fn wf(self) -> bool {
        // note identities are unique and below the id cursor
        &&& forall|i: int, j: int| 0 <= i < self.notes@.len() && 0 <= j < self.notes@.len()
            && i != j ==> (#[trigger] self.notes@[i]).id != (#[trigger] self.notes@[j]).id
        &&& forall|i: int| 0 <= i < self.notes@.len() ==> {
            let n = #[trigger] self.notes@[i];
            &&& n.id < self.next_note_id
            &&& n.centroid@.len() == self.dim
            &&& n.centroid_json@ == json_of(n.centroid@)
        }
        // chunk identities are unique and below the id cursor; every chunk has
        // the corpus dimension, a coherent serialized form, and a live owner
        &&& forall|i: int, j: int| 0 <= i < self.chunks@.len() && 0 <= j < self.chunks@.len()
            && i != j ==> (#[trigger] self.chunks@[i]).id != (#[trigger] self.chunks@[j]).id
        &&& forall|i: int| 0 <= i < self.chunks@.len() ==> {
            let c = #[trigger] self.chunks@[i];
            &&& c.id < self.next_chunk_id
            &&& c.embedding@.len() == self.dim
            &&& c.embedding_json@ == json_of(c.embedding@)
            &&& self.has_note(c.note_id)
        }
        // the index table shadows the chunk table row for row
        &&& self.chunk_index@.len() == self.chunks@.len()
        &&& forall|i: int| 0 <= i < self.chunks@.len() ==> {
            let c = #[trigger] self.chunks@[i];
            &&& self.chunk_index@[i].id == c.id
            &&& self.chunk_index@[i].embedding@ == c.embedding@
        }
        // tags are unique; every link joins a live note to a live tag, once
        &&& forall|i: int, j: int| 0 <= i < self.tags@.len() && 0 <= j < self.tags@.len()
            && i != j ==> (#[trigger] self.tags@[i]).id@ != (#[trigger] self.tags@[j]).id@
        &&& forall|i: int| 0 <= i < self.note_tags@.len() ==> {
            let l = #[trigger] self.note_tags@[i];
            &&& self.has_note(l.note_id)
            &&& self.has_tag(l.tag_id@)
        }
        &&& forall|i: int, j: int| 0 <= i < self.note_tags@.len()
            && 0 <= j < self.note_tags@.len() && i != j
            ==> !((#[trigger] self.note_tags@[i]).note_id == (#[trigger] self.note_tags@[j]).note_id
                && self.note_tags@[i].tag_id@ == self.note_tags@[j].tag_id@)
    }

    /// An empty corpus of the given dimension.
    pub fn new(dim: usize) -> (s: NoteStore)
        ensures
            s.wf(),
            s.dim == dim,
            s.next_note_id == 1,
            s.next_chunk_id == 1,
            s.notes@.len() == 0,
            s.chunks@.len() == 0,
            s.chunk_index@.len() == 0,
            s.tags@.len() == 0,
            s.note_tags@.len() == 0,
    {
        NoteStore {
            dim,
            next_note_id: 1,
            next_chunk_id: 1,
            notes: Vec::new(),
            chunks: Vec::new(),
            chunk_index: Vec::new(),
            tags: Vec::new(),
            note_tags: Vec::new(),
        }
    }
}

/// Relation between the store before and after a successful note creation:
/// one note row is appended with the given content, timestamps and the
/// centroid of the given chunk vectors; one chunk row and one paired index
/// row are appended per chunk, in input order, with fresh consecutive ids
/// owned by the new note; nothing else changes.
pub open spec fn create_note_post(
    pre: NoteStore,
    post: NoteStore,
    content: Seq<char>,
    chunks: Seq<ChunkInput>,
    now: i64,
    id: i64,
) -> bool {
    &&& id == pre.next_note_id
    &&& post.dim == pre.dim
    &&& post.next_note_id == pre.next_note_id + 1
    &&& post.next_chunk_id == pre.next_chunk_id + chunks.len()
    &&& post.notes@.len() == pre.notes@.len() + 1
    &&& forall|i: int| 0 <= i < pre.notes@.len()
        ==> #[trigger] post.notes@[i] == pre.notes@[i]
    &&& post.notes@.last().id == id
    &&& post.notes@.last().content@ == content
    &&& post.notes@.last().created_at == now
    &&& post.notes@.last().updated_at == now
    &&& post.notes@.last().centroid@.len() == pre.dim
    &&& forall|j: int| 0 <= j < pre.dim
        ==> #[trigger] post.notes@.last().centroid@[j] == centroid_val(embeddings_of(chunks), j)
    &&& post.chunks@.len() == pre.chunks@.len() + chunks.len()
    &&& forall|i: int| 0 <= i < pre.chunks@.len()
        ==> #[trigger] post.chunks@[i] == pre.chunks@[i]
    &&& forall|i: int| pre.chunks@.len() <= i < post.chunks@.len() ==> {
        let c = #[trigger] post.chunks@[i];
        let t = i - pre.chunks@.len();
        &&& c.id == pre.next_chunk_id + t
        &&& c.note_id == id
        &&& c.text@ == chunks[t].text@
        &&& c.embedding@ == chunks[t].embedding@
    }
    &&& post.chunk_index@.len() == pre.chunk_index@.len() + chunks.len()
    &&& forall|i: int| 0 <= i < pre.chunk_index@.len()
        ==> #[trigger] post.chunk_index@[i] == pre.chunk_index@[i]
    &&& forall|i: int| pre.chunk_index@.len() <= i < post.chunk_index@.len() ==> {
        let x = #[trigger] post.chunk_index@[i];
        let t = i - pre.chunk_index@.len();
        &&& x.id == pre.next_chunk_id + t
        &&& x.embedding@ == chunks[t].embedding@
    }
    &&& post.tags@ == pre.tags@
    &&& post.note_tags@ == pre.note_tags@
}

#[verifier::loop_isolation(false)]
pub(crate) fn copy_vector(v: &Vec<i64>) -> (r: Vec<i64>)
    ensures
        r@ == v@,
{
    let mut r: Vec<i64> = Vec::new();
    let mut i: usize = 0;
    while i < v.len()
        invariant
            i <= v@.len(),
            r@ == v@.take(i as int),
        decreases v@.len() - i,
    {
        proof {
            assert(v@.take(i + 1 as int) =~= v@.take(i as int).push(v@[i as int]));
        }
        r.push(v[i]);
        i += 1;
    }
    proof {
        assert(v@.take(v@.len() as int) =~= v@);
    }
    r
}

impl NoteStore {
    /// Ingests a note: appends the note row with the centroid of the chunk
    /// vectors and, as the same logical unit, one chunk row plus one paired
    /// index row per chunk. A chunk vector of the wrong dimension rejects the
    /// whole write and leaves the store untouched.
    #[verifier::loop_isolation(false)]
    pub fn create_note(
        &mut self,
        content: String,
        chunks: Vec<ChunkInput>,
        now: i64,
    ) -> (r: Result<i64, EngineError>)
        requires
            old(self).wf(),
            chunks@.len() >= 1,
            forall|i: int| 0 <= i < chunks@.len() ==> chunk_input_wf(#[trigger] chunks@[i]),
            old(self).next_note_id < 0x7fff_ffff_ffff_ffff,
            old(self).next_chunk_id + chunks@.len() <= 0x7fff_ffff_ffff_ffff,
        ensures
            final(self).wf(),
            r is Ok <==> all_dims(embeddings_of(chunks@), old(self).dim as nat),
            r matches Ok(id) ==> create_note_post(
                *old(self), *final(self), content@, chunks@, now, id),
            r is Err ==> (r == Err::<i64, EngineError>(EngineError::DimensionMismatch)
                && *final(self) == *old(self)),
    {
        let dim = self.dim;
        let mut i: usize = 0;
        while i < chunks.len()
            invariant
                i <= chunks@.len(),
                dim == self.dim,
                forall|k: int| 0 <= k < i ==> (#[trigger] chunks@[k]).embedding@.len() == dim,
            decreases chunks@.len() - i,
        {
            if chunks[i].embedding.len() != dim {
                proof {
                    assert(embeddings_of(chunks@)[i as int] == chunks@[i as int].embedding@);
                    assert(!all_dims(embeddings_of(chunks@), dim as nat));
                }
                return Err(EngineError::DimensionMismatch);
            }
            i += 1;
        }
        proof {
            assert forall|k: int| 0 <= k < chunks@.len()
                implies (#[trigger] embeddings_of(chunks@)[k]).len() == dim by {
                assert(embeddings_of(chunks@)[k] == chunks@[k].embedding@);
            }
            assert(all_dims(embeddings_of(chunks@), dim as nat));
        }

        let mut embs: Vec<Vec<i64>> = Vec::new();
        let mut i: usize = 0;
        while i < chunks.len()
            invariant
                i <= chunks@.len(),
                embs@.len() == i,
                forall|k: int| 0 <= k < i ==> (#[trigger] embs@[k])@ == chunks@[k].embedding@,
            decreases chunks@.len() - i,
        {
            let e = copy_vector(&chunks[i].embedding);
            embs.push(e);
            i += 1;
        }
        proof {
            assert forall|k: int| 0 <= k < chunks@.len()
                implies #[trigger] seq_views(embs@)[k] == embeddings_of(chunks@)[k] by {
                assert(seq_views(embs@)[k] == embs@[k]@);
                assert(embeddings_of(chunks@)[k] == chunks@[k].embedding@);
            }
            assert(seq_views(embs@) =~= embeddings_of(chunks@));
            assert(embs@[0]@ == chunks@[0].embedding@);
        }

        let centroid = match compute_centroid(&embs) {
            Ok(c) => c,
            Err(_) => {
                // unreachable: the family is non-empty and all dimensions agree
                proof {
                    assert(all_dims(seq_views(embs@), embs@[0]@.len() as nat));
                    assert(false);
                }
                return Err(EngineError::DimensionMismatch);
            },
        };
        let centroid_json = vector_to_json(&centroid);

        let id = self.next_note_id;
        let ghost pre = *self;
        let row = NoteRow {
            id,
            content,
            centroid,
            centroid_json,
            created_at: now,
            updated_at: now,
        };
        self.notes.push(row);
        self.next_note_id = id + 1;

        proof {
            let mid = *self;
            assert forall|i: int, j: int| 0 <= i < mid.notes@.len() && 0 <= j < mid.notes@.len()
                && i != j implies (#[trigger] mid.notes@[i]).id != (#[trigger] mid.notes@[j]).id by {
                if i < pre.notes@.len() && j < pre.notes@.len() {
                    assert(pre.notes@[i].id != pre.notes@[j].id);
                } else if j == pre.notes@.len() {
                    assert(pre.notes@[i].id < pre.next_note_id);
                } else {
                    assert(pre.notes@[j].id < pre.next_note_id);
                }
            }
            assert forall|i: int| 0 <= i < mid.chunks@.len()
                implies mid.has_note((#[trigger] mid.chunks@[i]).note_id) by {
                let w = choose|w: int| 0 <= w < pre.notes@.len()
                    && (#[trigger] pre.notes@[w]).id == pre.chunks@[i].note_id;
                assert(mid.notes@[w] == pre.notes@[w]);
            }
            assert forall|i: int| 0 <= i < mid.note_tags@.len()
                implies mid.has_note((#[trigger] mid.note_tags@[i]).note_id)
                    && mid.has_tag(mid.note_tags@[i].tag_id@) by {
                let w = choose|w: int| 0 <= w < pre.notes@.len()
                    && (#[trigger] pre.notes@[w]).id == pre.note_tags@[i].note_id;
                assert(mid.notes@[w] == pre.notes@[w]);
                assert(pre.has_tag(pre.note_tags@[i].tag_id@));
                let w2 = choose|w2: int| 0 <= w2 < pre.tags@.len()
                    && (#[trigger] pre.tags@[w2]).id@ == pre.note_tags@[i].tag_id@;
                assert(mid.tags@[w2] == pre.tags@[w2]);
            }
            assert(mid.wf());
            assert(mid.has_note(id)) by {
                assert(mid.notes@[pre.notes@.len() as int].id == id);
            }
        }
        self.insert_chunk_rows(id, &chunks);

        proof {
            let post = *self;
            assert(pre.chunk_index@.len() == pre.chunks@.len());
            assert(post.notes@.last() == row);
            assert(post.notes@.last().centroid@.len() == pre.dim);
            assert(forall|j: int| 0 <= j < pre.dim
                ==> #[trigger] post.notes@.last().centroid@[j]
                    == centroid_val(embeddings_of(chunks@), j));
            assert(forall|i: int| 0 <= i < pre.notes@.len()
                ==> #[trigger] post.notes@[i] == pre.notes@[i]);
            assert(create_note_post(pre, post, row.content@, chunks@, now, id));
        }
        Ok(id)
    }

    /// Appends one chunk row and one paired index row per input, in input
    /// order, with fresh consecutive ids, all owned by `note_id`. The two
    /// tables move in lockstep: this is the single logical unit that the
    /// storage layer must wrap in one transaction.
    #[verifier::loop_isolation(false)]
    fn insert_chunk_rows(&mut self, note_id: i64, chunks: &Vec<ChunkInput>)
        requires
            old(self).wf(),
            old(self).has_note(note_id),
            forall|i: int| 0 <= i < chunks@.len() ==> chunk_input_wf(#[trigger] chunks@[i]),
            forall|i: int| 0 <= i < chunks@.len()
                ==> (#[trigger] chunks@[i]).embedding@.len() == old(self).dim,
            old(self).next_chunk_id + chunks@.len() <= 0x7fff_ffff_ffff_ffff,
        ensures
            final(self).wf(),
            final(self).dim == old(self).dim,
            final(self).next_note_id == old(self).next_note_id,
            final(self).next_chunk_id == old(self).next_chunk_id + chunks@.len(),
            final(self).notes@ == old(self).notes@,
            final(self).tags@ == old(self).tags@,
            final(self).note_tags@ == old(self).note_tags@,
            final(self).chunks@.len() == old(self).chunks@.len() + chunks@.len(),
            forall|i: int| 0 <= i < old(self).chunks@.len()
                ==> #[trigger] final(self).chunks@[i] == old(self).chunks@[i],
            forall|i: int| old(self).chunks@.len() <= i < final(self).chunks@.len() ==> {
                let c = #[trigger] final(self).chunks@[i];
                let t = i - old(self).chunks@.len();
                &&& c.id == old(self).next_chunk_id + t
                &&& c.note_id == note_id
                &&& c.text@ == chunks@[t].text@
                &&& c.embedding@ == chunks@[t].embedding@
            },
            final(self).chunk_index@.len() == old(self).chunk_index@.len() + chunks@.len(),
            forall|i: int| 0 <= i < old(self).chunk_index@.len()
                ==> #[trigger] final(self).chunk_index@[i] == old(self).chunk_index@[i],
            forall|i: int| old(self).chunk_index@.len() <= i < final(self).chunk_index@.len() ==> {
                let x = #[trigger] final(self).chunk_index@[i];
                let t = i - old(self).chunk_index@.len();
                &&& x.id == old(self).next_chunk_id + t
                &&& x.embedding@ == chunks@[t].embedding@
            },
    {
        let ghost pre = *old(self);
        let mut k: usize = 0;
        while k < chunks.len()
            invariant
                k <= chunks@.len(),
                self.dim == pre.dim,
                self.next_note_id == pre.next_note_id,
                self.next_chunk_id == pre.next_chunk_id + k,
                self.notes@ == pre.notes@,
                self.tags@ == pre.tags@,
                self.note_tags@ == pre.note_tags@,
                self.chunks@.len() == pre.chunks@.len() + k,
                forall|i: int| 0 <= i < pre.chunks@.len()
                    ==> #[trigger] self.chunks@[i] == pre.chunks@[i],
                forall|i: int| pre.chunks@.len() <= i < self.chunks@.len() ==> {
                    let c = #[trigger] self.chunks@[i];
                    let t = i - pre.chunks@.len();
                    &&& c.id == pre.next_chunk_id + t
                    &&& c.note_id == note_id
                    &&& c.text@ == chunks@[t].text@
                    &&& c.embedding@ == chunks@[t].embedding@
                    &&& c.embedding_json@ == chunks@[t].embedding_json@
                },
                self.chunk_index@.len() == self.chunks@.len(),
                forall|i: int| 0 <= i < pre.chunk_index@.len()
                    ==> #[trigger] self.chunk_index@[i] == pre.chunk_index@[i],
                forall|i: int| 0 <= i < self.chunks@.len() ==> {
                    let c = #[trigger] self.chunks@[i];
                    &&& self.chunk_index@[i].id == c.id
                    &&& self.chunk_index@[i].embedding@ == c.embedding@
                },
            decreases chunks@.len() - k,
        {
            let cid = self.next_chunk_id;
            let text = chunks[k].text.clone();
            let embedding = copy_vector(&chunks[k].embedding);
            let embedding_json = chunks[k].embedding_json.clone();
            let index_embedding = copy_vector(&chunks[k].embedding);
            self.chunks.push(ChunkRow {
                id: cid,
                note_id,
                text,
                embedding,
                embedding_json,
            });
            self.chunk_index.push(IndexRow { id: cid, embedding: index_embedding });
            self.next_chunk_id = cid + 1;
            k += 1;
        }
        proof {
            let post = *self;
            assert(pre.chunk_index@.len() == pre.chunks@.len());
            assert forall|i: int| 0 <= i < post.chunks@.len()
                implies post.has_note((#[trigger] post.chunks@[i]).note_id) by {
                if i < pre.chunks@.len() {
                    assert(post.chunks@[i] == pre.chunks@[i]);
                    assert(pre.has_note(pre.chunks@[i].note_id));
                } else {
                    assert(post.chunks@[i].note_id == note_id);
                }
            }
            assert(post.wf());
            assert forall|i: int| pre.chunk_index@.len() <= i < post.chunk_index@.len() implies {
                let x = #[trigger] post.chunk_index@[i];
                let t = i - pre.chunk_index@.len();
                &&& x.id == pre.next_chunk_id + t
                &&& x.embedding@ == chunks@[t].embedding@
            } by {
                let c = post.chunks@[i];
                assert(c.id == pre.next_chunk_id + (i - pre.chunks@.len()));
                assert(post.chunk_index@[i].id == c.id);
                assert(post.chunk_index@[i].embedding@ == c.embedding@);
            }
        }
    }
}


/// The chunk rows that survive deleting a note: all rows not owned by
/// `note_id`, in their original order.
pub open spec fn keep_chunks(s: Seq<ChunkRow>, note_id: i64) -> Seq<ChunkRow>
    decreases s.len(),
{
    if s.len() == 0 {
        Seq::empty()
    } else if s.last().note_id == note_id {
        keep_chunks(s.drop_last(), note_id)
    } else {
        keep_chunks(s.drop_last(), note_id).push(s.last())
    }
}

/// The tag links that survive deleting a note: all links not attached to
/// `note_id`, in their original order.
pub open spec fn keep_links(s: Seq<NoteTagLink>, note_id: i64) -> Seq<NoteTagLink>
    decreases s.len(),
{
    if s.len() == 0 {
        Seq::empty()
    } else if s.last().note_id == note_id {
        keep_links(s.drop_last(), note_id)
    } else {
        keep_links(s.drop_last(), note_id).push(s.last())
    }
}

proof fn lemma_keep_chunks_take_step(s: Seq<ChunkRow>, note_id: i64, i: int)
    requires
        0 <= i < s.len(),
    ensures
        keep_chunks(s.take(i + 1), note_id) == if s[i].note_id == note_id {
            keep_chunks(s.take(i), note_id)
        } else {
            keep_chunks(s.take(i), note_id).push(s[i])
        },
{
    assert(s.take(i + 1).drop_last() =~= s.take(i));
    assert(s.take(i + 1).last() == s[i]);
}

/// Soundness and completeness of the surviving chunk set: everything kept
/// comes from the original rows and is not owned by the deleted note, and
/// every original row of another note is kept.
pub proof fn lemma_keep_chunks_props(s: Seq<ChunkRow>, note_id: i64)
    ensures
        keep_chunks(s, note_id).len() <= s.len(),
        forall|i: int| 0 <= i < keep_chunks(s, note_id).len()
            ==> ((#[trigger] keep_chunks(s, note_id)[i]).note_id != note_id
                && s.contains(keep_chunks(s, note_id)[i])),
        forall|i: int| 0 <= i < s.len() && (#[trigger] s[i]).note_id != note_id
            ==> keep_chunks(s, note_id).contains(s[i]),
    decreases s.len(),
{
    if s.len() > 0 {
        lemma_keep_chunks_props(s.drop_last(), note_id);
        let k = keep_chunks(s, note_id);
        let kd = keep_chunks(s.drop_last(), note_id);
        assert forall|i: int| 0 <= i < k.len()
            implies (k[i].note_id != note_id && s.contains(k[i])) by {
            if s.last().note_id != note_id && i == k.len() - 1 {
                assert(k[i] == s.last());
                assert(s[s.len() - 1] == s.last());
            } else {
                assert(k[i] == kd[i]);
                let w = choose|w: int| 0 <= w < s.drop_last().len()
                    && s.drop_last()[w] == kd[i];
                assert(s[w] == kd[i]);
            }
        }
        assert forall|i: int| 0 <= i < s.len() && (#[trigger] s[i]).note_id != note_id
            implies k.contains(s[i]) by {
            if i == s.len() - 1 {
                assert(k[k.len() - 1] == s[i]);
            } else {
                assert(s.drop_last()[i] == s[i]);
                assert(kd.contains(s[i]));
                let w = choose|w: int| 0 <= w < kd.len() && kd[w] == s[i];
                assert(k[w] == s[i]);
            }
        }
    }
}

/// Surviving chunk rows keep distinct identities.
pub proof fn lemma_keep_chunks_unique(s: Seq<ChunkRow>, note_id: i64)
    requires
        forall|i: int, j: int| 0 <= i < s.len() && 0 <= j < s.len() && i != j
            ==> (#[trigger] s[i]).id != (#[trigger] s[j]).id,
    ensures
        forall|i: int, j: int| 0 <= i < keep_chunks(s, note_id).len()
            && 0 <= j < keep_chunks(s, note_id).len() && i != j
            ==> (#[trigger] keep_chunks(s, note_id)[i]).id
                != (#[trigger] keep_chunks(s, note_id)[j]).id,
    decreases s.len(),
{
    if s.len() > 0 {
        assert forall|i: int, j: int| 0 <= i < s.drop_last().len()
            && 0 <= j < s.drop_last().len() && i != j
            implies (#[trigger] s.drop_last()[i]).id != (#[trigger] s.drop_last()[j]).id by {
            assert(s.drop_last()[i] == s[i]);
            assert(s.drop_last()[j] == s[j]);
        }
        lemma_keep_chunks_unique(s.drop_last(), note_id);
        lemma_keep_chunks_props(s.drop_last(), note_id);
        let k = keep_chunks(s, note_id);
        let kd = keep_chunks(s.drop_last(), note_id);
        assert forall|i: int, j: int| 0 <= i < k.len() && 0 <= j < k.len() && i != j
            implies (#[trigger] k[i]).id != (#[trigger] k[j]).id by {
            if s.last().note_id != note_id {
                if i == k.len() - 1 || j == k.len() - 1 {
                    let o = if i == k.len() - 1 { j } else { i };
                    assert(k[o] == kd[o]);
                    let w = choose|w: int| 0 <= w < s.drop_last().len()
                        && s.drop_last()[w] == kd[o];
                    assert(s[w] == kd[o]);
                    assert(s[w].id != s[s.len() - 1].id);
                    assert(k[k.len() - 1] == s.last());
                } else {
                    assert(k[i] == kd[i] && k[j] == kd[j]);
                }
            } else {
                assert(k[i] == kd[i] && k[j] == kd[j]);
            }
        }
    }
}

proof fn lemma_keep_links_take_step(s: Seq<NoteTagLink>, note_id: i64, i: int)
    requires
        0 <= i < s.len(),
    ensures
        keep_links(s.take(i + 1), note_id) == if s[i].note_id == note_id {
            keep_links(s.take(i), note_id)
        } else {
            keep_links(s.take(i), note_id).push(s[i])
        },
{
    assert(s.take(i + 1).drop_last() =~= s.take(i));
    assert(s.take(i + 1).last() == s[i]);
}

/// Soundness and completeness of the surviving tag links, and preservation of
/// pairwise-distinct links.
pub proof fn lemma_keep_links_props(s: Seq<NoteTagLink>, note_id: i64)
    ensures
        forall|i: int| 0 <= i < keep_links(s, note_id).len()
            ==> ((#[trigger] keep_links(s, note_id)[i]).note_id != note_id
                && s.contains(keep_links(s, note_id)[i])),
        forall|i: int| 0 <= i < s.len() && (#[trigger] s[i]).note_id != note_id
            ==> keep_links(s, note_id).contains(s[i]),
        (forall|i: int, j: int| 0 <= i < s.len() && 0 <= j < s.len() && i != j
            ==> !((#[trigger] s[i]).note_id == (#[trigger] s[j]).note_id
                && s[i].tag_id@ == s[j].tag_id@))
            ==> (forall|i: int, j: int| 0 <= i < keep_links(s, note_id).len()
                && 0 <= j < keep_links(s, note_id).len() && i != j
                ==> !((#[trigger] keep_links(s, note_id)[i]).note_id
                        == (#[trigger] keep_links(s, note_id)[j]).note_id
                    && keep_links(s, note_id)[i].tag_id@
                        == keep_links(s, note_id)[j].tag_id@)),
    decreases s.len(),
{
    if s.len() > 0 {
        lemma_keep_links_props(s.drop_last(), note_id);
        let k = keep_links(s, note_id);
        let kd = keep_links(s.drop_last(), note_id);
        assert forall|i: int| 0 <= i < k.len()
            implies (k[i].note_id != note_id && s.contains(k[i])) by {
            if s.last().note_id != note_id && i == k.len() - 1 {
                assert(k[i] == s.last());
                assert(s[s.len() - 1] == s.last());
            } else {
                assert(k[i] == kd[i]);
                let w = choose|w: int| 0 <= w < s.drop_last().len()
                    && s.drop_last()[w] == kd[i];
                assert(s[w] == kd[i]);
            }
        }
        assert forall|i: int| 0 <= i < s.len() && (#[trigger] s[i]).note_id != note_id
            implies k.contains(s[i]) by {
            if i == s.len() - 1 {
                assert(k[k.len() - 1] == s[i]);
            } else {
                assert(s.drop_last()[i] == s[i]);
                assert(kd.contains(s[i]));
                let w = choose|w: int| 0 <= w < kd.len() && kd[w] == s[i];
                assert(k[w] == s[i]);
            }
        }
        if forall|i: int, j: int| 0 <= i < s.len() && 0 <= j < s.len() && i != j
            ==> !((#[trigger] s[i]).note_id == (#[trigger] s[j]).note_id
                && s[i].tag_id@ == s[j].tag_id@) {
            assert forall|i: int, j: int| 0 <= i < s.drop_last().len()
                && 0 <= j < s.drop_last().len() && i != j
                implies !((#[trigger] s.drop_last()[i]).note_id
                    == (#[trigger] s.drop_last()[j]).note_id
                    && s.drop_last()[i].tag_id@ == s.drop_last()[j].tag_id@) by {
                assert(s.drop_last()[i] == s[i]);
                assert(s.drop_last()[j] == s[j]);
            }
            assert forall|i: int, j: int| 0 <= i < k.len() && 0 <= j < k.len() && i != j
                implies !((#[trigger] k[i]).note_id == (#[trigger] k[j]).note_id
                    && k[i].tag_id@ == k[j].tag_id@) by {
                if s.last().note_id != note_id && (i == k.len() - 1 || j == k.len() - 1) {
                    let o = if i == k.len() - 1 { j } else { i };
                    assert(k[o] == kd[o]);
                    let w = choose|w: int| 0 <= w < s.drop_last().len()
                        && s.drop_last()[w] == kd[o];
                    assert(s[w] == kd[o]);
                    assert(!(s[w].note_id == s[s.len() - 1].note_id
                        && s[w].tag_id@ == s[s.len() - 1].tag_id@));
                    assert(k[k.len() - 1] == s.last());
                } else {
                    assert(k[i] == kd[i] && k[j] == kd[j]);
                }
            }
        }
    }
}

impl NoteStore {
    /// Linear search for the note with this id.
    #[verifier::loop_isolation(false)]
    pub fn find_note(&self, id: i64) -> (r: Option<usize>)
        ensures
            r matches Some(ix) ==> (ix < self.notes@.len()
                && self.notes@[ix as int].id == id),
            r is None ==> !self.has_note(id),
    {
        let mut i: usize = 0;
        while i < self.notes.len()
            invariant
                i <= self.notes@.len(),
                forall|k: int| 0 <= k < i ==> (#[trigger] self.notes@[k]).id != id,
            decreases self.notes@.len() - i,
        {
            if self.notes[i].id == id {
                return Some(i);
            }
            i += 1;
        }
        None
    }

    /// Removes every chunk row owned by `note_id` together with its paired
    /// index row, as one logical unit. Rows of other notes keep their order.
    #[verifier::loop_isolation(false)]
    fn delete_chunk_rows(&mut self, note_id: i64)
        requires
            old(self).wf(),
        ensures
            final(self).wf(),
            final(self).dim == old(self).dim,
            final(self).next_note_id == old(self).next_note_id,
            final(self).next_chunk_id == old(self).next_chunk_id,
            final(self).notes@ == old(self).notes@,
            final(self).tags@ == old(self).tags@,
            final(self).note_tags@ == old(self).note_tags@,
            final(self).chunks@ == keep_chunks(old(self).chunks@, note_id),
    {
        let mut rest: Vec<ChunkRow> = Vec::new();
        core::mem::swap(&mut self.chunks, &mut rest);
        let mut rest_index: Vec<IndexRow> = Vec::new();
        core::mem::swap(&mut self.chunk_index, &mut rest_index);
        let total: usize = rest.len();
        let ghost all = rest@;
        let ghost all_index = rest_index@;
        let ghost pre = *old(self);
        let mut i: usize = 0;
        while rest.len() > 0
            invariant
                i <= all.len(),
                all.len() == total,
                all_index.len() == all.len(),
                rest@ == all.skip(i as int),
                rest_index@ == all_index.skip(i as int),
                self.chunks@ == keep_chunks(all.take(i as int), note_id),
                self.chunk_index@.len() == self.chunks@.len(),
                forall|w: int| 0 <= w < self.chunks@.len() ==> {
                    let c = #[trigger] self.chunks@[w];
                    &&& self.chunk_index@[w].id == c.id
                    &&& self.chunk_index@[w].embedding@ == c.embedding@
                },
                self.dim == pre.dim,
                self.next_note_id == pre.next_note_id,
                self.next_chunk_id == pre.next_chunk_id,
                self.notes@ == pre.notes@,
                self.tags@ == pre.tags@,
                self.note_tags@ == pre.note_tags@,
            decreases rest@.len(),
        {
            proof {
                assert(rest@[0] == all[i as int]);
                assert(rest_index@[0] == all_index[i as int]);
                assert(all_index[i as int].id == all[i as int].id);
                assert(all_index[i as int].embedding@ == all[i as int].embedding@);
                lemma_keep_chunks_take_step(all, note_id, i as int);
                assert(i < all.len());
                assert(all.skip(i as int).remove(0) =~= all.skip(i + 1 as int));
                assert(all_index.skip(i as int).remove(0) =~= all_index.skip(i + 1 as int));
            }
            let row = rest.remove(0);
            let irow = rest_index.remove(0);
            if row.note_id != note_id {
                self.chunks.push(row);
                self.chunk_index.push(irow);
            }
            i += 1;
        }
        proof {
            assert(i == all.len());
            assert(all.take(all.len() as int) =~= all);
            lemma_keep_chunks_props(all, note_id);
            lemma_keep_chunks_unique(all, note_id);
            let post = *self;
            assert forall|w: int| 0 <= w < post.chunks@.len()
                implies post.has_note((#[trigger] post.chunks@[w]).note_id)
                    && post.chunks@[w].id < post.next_chunk_id
                    && post.chunks@[w].embedding@.len() == post.dim
                    && post.chunks@[w].embedding_json@
                        == crate::jsoncodec::json_of(post.chunks@[w].embedding@) by {
                assert(all.contains(post.chunks@[w]));
                let v = choose|v: int| 0 <= v < all.len() && all[v] == post.chunks@[w];
                assert(pre.chunks@[v] == post.chunks@[w]);
                assert(pre.has_note(pre.chunks@[v].note_id));
            }
            assert(post.wf());
        }
    }

    /// Deletes a note: as one logical unit, removes the note row, every chunk
    /// row it owns, every paired index row, and every tag link attached to
    /// it. A missing id is a `NotFound` failure and changes nothing.
    #[verifier::loop_isolation(false)]
    pub fn delete_note(&mut self, id: i64) -> (r: Result<(), EngineError>)
        requires
            old(self).wf(),
        ensures
            final(self).wf(),
            r is Ok <==> old(self).has_note(id),
            r is Err ==> (r == Err::<(), EngineError>(EngineError::NotFound)
                && *final(self) == *old(self)),
            r is Ok ==> delete_note_post(*old(self), *final(self), id),
    {
        let ix = match self.find_note(id) {
            Some(ix) => ix,
            None => {
                return Err(EngineError::NotFound);
            },
        };
        let ghost pre = *old(self);
        self.delete_chunk_rows(id);
        let ghost mid = *self;

        // remove the tag links of the note
        let mut rest: Vec<NoteTagLink> = Vec::new();
        core::mem::swap(&mut self.note_tags, &mut rest);
        let total: usize = rest.len();
        let ghost all = rest@;
        let mut i: usize = 0;
        while rest.len() > 0
            invariant
                i <= all.len(),
                all.len() == total,
                rest@ == all.skip(i as int),
                self.note_tags@ == keep_links(all.take(i as int), id),
                self.dim == mid.dim,
                self.next_note_id == mid.next_note_id,
                self.next_chunk_id == mid.next_chunk_id,
                self.notes@ == mid.notes@,
                self.tags@ == mid.tags@,
                self.chunks@ == mid.chunks@,
                self.chunk_index@ == mid.chunk_index@,
            decreases rest@.len(),
        {
            proof {
                assert(rest@[0] == all[i as int]);
                lemma_keep_links_take_step(all, id, i as int);
                assert(i < all.len());
                assert(all.skip(i as int).remove(0) =~= all.skip(i + 1 as int));
            }
            let link = rest.remove(0);
            if link.note_id != id {
                self.note_tags.push(link);
            }
            i += 1;
        }
        proof {
            assert(all.take(all.len() as int) =~= all);
        }

        // remove the note row itself
        let removed = self.notes.remove(ix);

        proof {
            lemma_keep_links_props(all, id);
            lemma_keep_chunks_props(pre.chunks@, id);
            lemma_keep_chunks_unique(pre.chunks@, id);
            let post = *self;
            assert(pre.notes@[ix as int].id == id);
            // the found index is the chosen index, by uniqueness
            let ci = pre.note_index_of(id);
            assert(pre.has_note(id)) by {
                assert(pre.notes@[ix as int].id == id);
            }
            assert(0 <= ci < pre.notes@.len() && pre.notes@[ci].id == id);
            assert(ci == ix as int);
            assert(post.notes@ == pre.notes@.remove(ix as int));
            // uniqueness of notes survives removal
            assert forall|a: int, b: int| 0 <= a < post.notes@.len()
                && 0 <= b < post.notes@.len() && a != b
                implies (#[trigger] post.notes@[a]).id != (#[trigger] post.notes@[b]).id by {
                let a0 = if a < ix as int { a } else { a + 1 };
                let b0 = if b < ix as int { b } else { b + 1 };
                assert(post.notes@[a] == pre.notes@[a0]);
                assert(post.notes@[b] == pre.notes@[b0]);
            }
            // no note with the deleted id remains
            assert forall|a: int| 0 <= a < post.notes@.len()
                implies (#[trigger] post.notes@[a]).id != id by {
                let a0 = if a < ix as int { a } else { a + 1 };
                assert(post.notes@[a] == pre.notes@[a0]);
                assert(a0 != ix as int);
            }
            // surviving chunks still have owners
            assert forall|w: int| 0 <= w < post.chunks@.len()
                implies post.has_note((#[trigger] post.chunks@[w]).note_id) by {
                assert(pre.chunks@.contains(post.chunks@[w]));
                let v = choose|v: int| 0 <= v < pre.chunks@.len()
                    && pre.chunks@[v] == post.chunks@[w];
                assert(pre.has_note(pre.chunks@[v].note_id));
                let nw = choose|nw: int| 0 <= nw < pre.notes@.len()
                    && (#[trigger] pre.notes@[nw]).id == pre.chunks@[v].note_id;
                assert(post.chunks@[w].note_id != id);
                assert(nw != ix as int);
                let nw2 = if nw < ix as int { nw } else { nw - 1 };
                assert(post.notes@[nw2] == pre.notes@[nw]);
            }
            // surviving links still join live notes to live tags
            assert forall|w: int| 0 <= w < post.note_tags@.len()
                implies post.has_note((#[trigger] post.note_tags@[w]).note_id)
                    && post.has_tag(post.note_tags@[w].tag_id@) by {
                assert(mid.note_tags@.contains(post.note_tags@[w]));
                let v = choose|v: int| 0 <= v < mid.note_tags@.len()
                    && mid.note_tags@[v] == post.note_tags@[w];
                assert(pre.has_note(pre.note_tags@[v].note_id));
                assert(pre.has_tag(pre.note_tags@[v].tag_id@));
                let nw = choose|nw: int| 0 <= nw < pre.notes@.len()
                    && (#[trigger] pre.notes@[nw]).id == pre.note_tags@[v].note_id;
                assert(post.note_tags@[w].note_id != id);
                assert(nw != ix as int);
                let nw2 = if nw < ix as int { nw } else { nw - 1 };
                assert(post.notes@[nw2] == pre.notes@[nw]);
                let tw = choose|tw: int| 0 <= tw < pre.tags@.len()
                    && (#[trigger] pre.tags@[tw]).id@ == pre.note_tags@[v].tag_id@;
                assert(post.tags@[tw] == pre.tags@[tw]);
            }
            assert(post.wf());
            assert(delete_note_post(pre, post, id));
        }
        Ok(())
    }
}

/// Relation between the store before and after deleting note `id`: the note
/// row is gone, the chunk rows it owned are gone from the chunk table and,
/// row for row, from the index table, its tag links are gone, and every other
/// row survives unchanged and in order.
pub open spec fn delete_note_post(pre: NoteStore, post: NoteStore, id: i64) -> bool {
    &&& post.dim == pre.dim
    &&& post.next_note_id == pre.next_note_id
    &&& post.next_chunk_id == pre.next_chunk_id
    &&& post.notes@ == pre.notes@.remove(pre.note_index_of(id))
    &&& !post.has_note(id)
    &&& post.chunks@ == keep_chunks(pre.chunks@, id)
    &&& post.chunk_index@.len() == post.chunks@.len()
    &&& post.note_tags@ == keep_links(pre.note_tags@, id)
    &&& post.tags@ == pre.tags@
}

/// Relation between the store before and after a successful update of note
/// `id`: the note row keeps its identity and creation time but carries the
/// new content, the centroid of the new chunk vectors and the new update
/// time; the chunk rows the note owned are replaced, as one logical unit, by
/// one fresh chunk row plus paired index row per new chunk; rows of other
/// notes, tags and links survive unchanged.
pub open spec fn update_note_post(
    pre: NoteStore,
    post: NoteStore,
    id: i64,
    content: Seq<char>,
    chunks: Seq<ChunkInput>,
    now: i64,
) -> bool {
    let kept = keep_chunks(pre.chunks@, id);
    let ix = pre.note_index_of(id);
    &&& post.dim == pre.dim
    &&& post.next_note_id == pre.next_note_id
    &&& post.next_chunk_id == pre.next_chunk_id + chunks.len()
    &&& post.notes@.len() == pre.notes@.len()
    &&& forall|i: int| 0 <= i < pre.notes@.len() && i != ix
        ==> #[trigger] post.notes@[i] == pre.notes@[i]
    &&& post.notes@[ix].id == id
    &&& post.notes@[ix].content@ == content
    &&& post.notes@[ix].created_at == pre.notes@[ix].created_at
    &&& post.notes@[ix].updated_at == now
    &&& post.notes@[ix].centroid@.len() == pre.dim
    &&& forall|j: int| 0 <= j < pre.dim ==> #[trigger] post.notes@[ix].centroid@[j]
        == centroid_val(embeddings_of(chunks), j)
    &&& post.chunks@.len() == kept.len() + chunks.len()
    &&& forall|i: int| 0 <= i < kept.len() ==> #[trigger] post.chunks@[i] == kept[i]
    &&& forall|i: int| kept.len() <= i < post.chunks@.len() ==> {
        let c = #[trigger] post.chunks@[i];
        let t = i - kept.len();
        &&& c.id == pre.next_chunk_id + t
        &&& c.note_id == id
        &&& c.text@ == chunks[t].text@
        &&& c.embedding@ == chunks[t].embedding@
    }
    &&& post.chunk_index@.len() == post.chunks@.len()
    &&& post.tags@ == pre.tags@
    &&& post.note_tags@ == pre.note_tags@
}

impl NoteStore {
    /// Updates a note: replaces its content, recomputes its centroid from the
    /// new chunk vectors, stamps the update time, and replaces its whole
    /// chunk set (relational rows and index rows together) by
    /// delete-then-reinsert with fresh chunk ids. A missing id is `NotFound`;
    /// a chunk vector of the wrong dimension is a `DimensionMismatch`; either
    /// failure leaves the store untouched.
    #[verifier::loop_isolation(false)]
    pub fn update_note(
        &mut self,
        id: i64,
        content: String,
        chunks: Vec<ChunkInput>,
        now: i64,
    ) -> (r: Result<(), EngineError>)
        requires
            old(self).wf(),
            chunks@.len() >= 1,
            forall|i: int| 0 <= i < chunks@.len() ==> chunk_input_wf(#[trigger] chunks@[i]),
            old(self).next_chunk_id + chunks@.len() <= 0x7fff_ffff_ffff_ffff,
        ensures
            final(self).wf(),
            r is Ok <==> (old(self).has_note(id)
                && all_dims(embeddings_of(chunks@), old(self).dim as nat)),
            r == Err::<(), EngineError>(EngineError::NotFound) <==> !old(self).has_note(id),
            r is Err ==> *final(self) == *old(self),
            r is Err ==> (r == Err::<(), EngineError>(EngineError::NotFound)
                || r == Err::<(), EngineError>(EngineError::DimensionMismatch)),
            r is Ok ==> update_note_post(*old(self), *final(self), id, content@, chunks@, now),
    {
        let ix = match self.find_note(id) {
            Some(ix) => ix,
            None => {
                return Err(EngineError::NotFound);
            },
        };
        let ghost pre = *old(self);
        proof {
            assert(pre.has_note(id)) by {
                assert(pre.notes@[ix as int].id == id);
            }
        }

        let dim = self.dim;
        let mut i: usize = 0;
        while i < chunks.len()
            invariant
                i <= chunks@.len(),
                dim == self.dim,
                forall|k: int| 0 <= k < i ==> (#[trigger] chunks@[k]).embedding@.len() == dim,
            decreases chunks@.len() - i,
        {
            if chunks[i].embedding.len() != dim {
                proof {
                    assert(embeddings_of(chunks@)[i as int] == chunks@[i as int].embedding@);
                    assert(!all_dims(embeddings_of(chunks@), dim as nat));
                }
                return Err(EngineError::DimensionMismatch);
            }
            i += 1;
        }
        proof {
            assert forall|k: int| 0 <= k < chunks@.len()
                implies (#[trigger] embeddings_of(chunks@)[k]).len() == dim by {
                assert(embeddings_of(chunks@)[k] == chunks@[k].embedding@);
            }
            assert(all_dims(embeddings_of(chunks@), dim as nat));
        }

        let mut embs: Vec<Vec<i64>> = Vec::new();
        let mut i: usize = 0;
        while i < chunks.len()
            invariant
                i <= chunks@.len(),
                embs@.len() == i,
                forall|k: int| 0 <= k < i ==> (#[trigger] embs@[k])@ == chunks@[k].embedding@,
            decreases chunks@.len() - i,
        {
            let e = copy_vector(&chunks[i].embedding);
            embs.push(e);
            i += 1;
        }
        proof {
            assert forall|k: int| 0 <= k < chunks@.len()
                implies #[trigger] seq_views(embs@)[k] == embeddings_of(chunks@)[k] by {
                assert(seq_views(embs@)[k] == embs@[k]@);
                assert(embeddings_of(chunks@)[k] == chunks@[k].embedding@);
            }
            assert(seq_views(embs@) =~= embeddings_of(chunks@));
            assert(embs@[0]@ == chunks@[0].embedding@);
        }

        let centroid = match compute_centroid(&embs) {
            Ok(c) => c,
            Err(_) => {
                // unreachable: the family is non-empty and all dimensions agree
                proof {
                    assert(all_dims(seq_views(embs@), embs@[0]@.len() as nat));
                    assert(false);
                }
                return Err(EngineError::DimensionMismatch);
            },
        };
        let centroid_json = vector_to_json(&centroid);

        self.delete_chunk_rows(id);

        let removed = self.notes.remove(ix);
        let row = NoteRow {
            id,
            content,
            centroid,
            centroid_json,
            created_at: removed.created_at,
            updated_at: now,
        };
        self.notes.insert(ix, row);
        proof {
            assert(self.notes@ =~= pre.notes@.update(ix as int, row));
        }

        proof {
            let mid = *self;
            assert forall|a: int, b: int| 0 <= a < mid.notes@.len() && 0 <= b < mid.notes@.len()
                && a != b implies (#[trigger] mid.notes@[a]).id != (#[trigger] mid.notes@[b]).id by {
                assert(pre.notes@[a].id != pre.notes@[b].id);
                assert(mid.notes@[a].id == pre.notes@[a].id);
                assert(mid.notes@[b].id == pre.notes@[b].id);
            }
            assert forall|x: i64| pre.has_note(x) implies mid.has_note(x) by {
                let w = choose|w: int| 0 <= w < pre.notes@.len()
                    && (#[trigger] pre.notes@[w]).id == x;
                assert(mid.notes@[w].id == pre.notes@[w].id);
            }
            assert forall|w: int| 0 <= w < mid.chunks@.len()
                implies mid.has_note((#[trigger] mid.chunks@[w]).note_id) by {
                lemma_keep_chunks_props(pre.chunks@, id);
                assert(pre.chunks@.contains(mid.chunks@[w]));
                let v = choose|v: int| 0 <= v < pre.chunks@.len()
                    && pre.chunks@[v] == mid.chunks@[w];
                assert(pre.has_note(pre.chunks@[v].note_id));
            }
            assert forall|w: int| 0 <= w < mid.note_tags@.len()
                implies mid.has_note((#[trigger] mid.note_tags@[w]).note_id)
                    && mid.has_tag(mid.note_tags@[w].tag_id@) by {
                assert(pre.has_note(pre.note_tags@[w].note_id));
                assert(pre.has_tag(pre.note_tags@[w].tag_id@));
                let tw = choose|tw: int| 0 <= tw < pre.tags@.len()
                    && (#[trigger] pre.tags@[tw]).id@ == pre.note_tags@[w].tag_id@;
                assert(mid.tags@[tw] == pre.tags@[tw]);
            }
            assert(mid.wf());
            assert(mid.has_note(id)) by {
                assert(mid.notes@[ix as int].id == id);
            }
        }

        self.insert_chunk_rows(id, &chunks);

        proof {
            let post = *self;
            let ci = pre.note_index_of(id);
            assert(0 <= ci < pre.notes@.len() && pre.notes@[ci].id == id);
            assert(ci == ix as int);
            assert(removed == pre.notes@[ix as int]);
            assert(post.notes@[ix as int] == row);
            assert(forall|j: int| 0 <= j < pre.dim
                ==> #[trigger] post.notes@[ix as int].centroid@[j]
                    == centroid_val(embeddings_of(chunks@), j));
            assert(update_note_post(pre, post, id, row.content@, chunks@, now));
        }
        Ok(())
    }
}

/// Builds one chunk input from a segment and its vector, serializing the
/// vector for the relational row.
pub fn make_chunk_input(text: String, embedding: Vec<i64>) -> (c: ChunkInput)
    ensures
        chunk_input_wf(c),
        c.text@ == text@,
        c.embedding@ == embedding@,
{
    let embedding_json = vector_to_json(&embedding);
    ChunkInput { text, embedding, embedding_json }
}

/// Pairs the segments of a note with the vectors the encoder returned for
/// them, in order. The encoder owes one vector per segment; a count mismatch
/// means the batch failed and yields `EncodingFailure`, never a partial set.
#[verifier::loop_isolation(false)]
pub fn note_content_to_chunks(
    texts: Vec<String>,
    embeddings: Vec<Vec<i64>>,
) -> (r: Result<Vec<ChunkInput>, EngineError>)
    ensures
        r is Ok <==> texts@.len() == embeddings@.len(),
        r is Err ==> r == Err::<Vec<ChunkInput>, EngineError>(EngineError::EncodingFailure),
        r matches Ok(v) ==> {
            &&& v@.len() == texts@.len()
            &&& forall|i: int| 0 <= i < v@.len() ==> {
                let c = #[trigger] v@[i];
                &&& chunk_input_wf(c)
                &&& c.text@ == texts@[i]@
                &&& c.embedding@ == embeddings@[i]@
            }
        },
{
    if texts.len() != embeddings.len() {
        return Err(EngineError::EncodingFailure);
    }
    let mut out: Vec<ChunkInput> = Vec::new();
    let mut i: usize = 0;
    while i < texts.len()
        invariant
            i <= texts@.len(),
            texts@.len() == embeddings@.len(),
            out@.len() == i,
            forall|k: int| 0 <= k < i ==> {
                let c = #[trigger] out@[k];
                &&& chunk_input_wf(c)
                &&& c.text@ == texts@[k]@
                &&& c.embedding@ == embeddings@[k]@
            },
        decreases texts@.len() - i,
    {
        let text = texts[i].clone();
        let embedding = copy_vector(&embeddings[i]);
        out.push(make_chunk_input(text, embedding));
        i += 1;
    }
    Ok(out)
}

} // verus!
