//! Store-level laws: consequences of the operation contracts that hold for
//! every state and every input, proved once and for all.

use vstd::prelude::*;
use crate::store::{
    create_note_post, delete_note_post, keep_chunks, lemma_keep_chunks_props,
    update_note_post, ChunkInput, NoteStore,
};

verus! {

/// After a successful update of note `id`, a chunk id the note owned before
/// the update is absent from the chunk table and from the index table, and
/// every chunk the note owns afterwards is one of the fresh rows.
pub proof fn law_update_replaces_chunk_set(
    pre: NoteStore,
    post: NoteStore,
    id: i64,
    content: Seq<char>,
    chunks: Seq<ChunkInput>,
    now: i64,
    w: int,
)
    requires
        pre.wf(),
        post.wf(),
        update_note_post(pre, post, id, content, chunks, now),
        0 <= w < pre.chunks@.len(),
        pre.chunks@[w].note_id == id,
    ensures
        !post.has_chunk(pre.chunks@[w].id),
        forall|i: int| 0 <= i < post.chunk_index@.len()
            ==> (#[trigger] post.chunk_index@[i]).id != pre.chunks@[w].id,
        forall|i: int| 0 <= i < post.chunks@.len()
            && (#[trigger] post.chunks@[i]).note_id == id
            ==> post.chunks@[i].id >= pre.next_chunk_id,
{
    let kept = keep_chunks(pre.chunks@, id);
    let old_id = pre.chunks@[w].id;
    lemma_keep_chunks_props(pre.chunks@, id);
    assert(old_id < pre.next_chunk_id);
    assert forall|i: int| 0 <= i < post.chunks@.len()
        implies (#[trigger] post.chunks@[i]).id != old_id by {
        if i < kept.len() {
            assert(post.chunks@[i] == kept[i]);
            assert(pre.chunks@.contains(kept[i]));
            let v = choose|v: int| 0 <= v < pre.chunks@.len() && pre.chunks@[v] == kept[i];
            if pre.chunks@[v].id == old_id {
                assert(v == w);
            }
        } else {
            assert(post.chunks@[i].id >= pre.next_chunk_id);
        }
    }
    assert forall|i: int| 0 <= i < post.chunk_index@.len()
        implies (#[trigger] post.chunk_index@[i]).id != old_id by {
        assert(post.chunk_index@[i].id == post.chunks@[i].id);
    }
    assert forall|i: int| 0 <= i < post.chunks@.len()
        && (#[trigger] post.chunks@[i]).note_id == id
        implies post.chunks@[i].id >= pre.next_chunk_id by {
        if i < kept.len() {
            assert(kept[i].note_id != id);
        }
    }
}

/// After a successful delete of note `id`, no row for it remains: not in the
/// note table, not in the chunk table, not in the index table, and no tag
/// link attached to it.
pub proof fn law_delete_leaves_no_rows(pre: NoteStore, post: NoteStore, id: i64)
    requires
        pre.wf(),
        post.wf(),
        delete_note_post(pre, post, id),
    ensures
        !post.has_note(id),
        forall|i: int| 0 <= i < post.chunks@.len()
            ==> (#[trigger] post.chunks@[i]).note_id != id,
        forall|i: int, w: int| 0 <= i < post.chunk_index@.len() && 0 <= w < pre.chunks@.len()
            && (#[trigger] pre.chunks@[w]).note_id == id
            ==> (#[trigger] post.chunk_index@[i]).id != pre.chunks@[w].id,
        forall|i: int| 0 <= i < post.note_tags@.len()
            ==> (#[trigger] post.note_tags@[i]).note_id != id,
{
    lemma_keep_chunks_props(pre.chunks@, id);
    crate::store::lemma_keep_links_props(pre.note_tags@, id);
    assert forall|i: int, w: int| 0 <= i < post.chunk_index@.len()
        && 0 <= w < pre.chunks@.len() && (#[trigger] pre.chunks@[w]).note_id == id
        implies (#[trigger] post.chunk_index@[i]).id != pre.chunks@[w].id by {
        assert(post.chunk_index@[i].id == post.chunks@[i].id);
        assert(pre.chunks@.contains(post.chunks@[i]));
        let v = choose|v: int| 0 <= v < pre.chunks@.len() && pre.chunks@[v] == post.chunks@[i];
        if pre.chunks@[v].id == pre.chunks@[w].id {
            assert(v == w);
        }
    }
}

/// Two ingests of distinct notes never cross-contaminate: after ingesting
/// note A and then note B, the chunks owned by A are exactly A's inputs —
/// none of them carries B's id, and none of B's chunks carries A's id.
pub proof fn law_ingest_isolation(
    s0: NoteStore,
    s1: NoteStore,
    s2: NoteStore,
    content_a: Seq<char>,
    chunks_a: Seq<ChunkInput>,
    now_a: i64,
    id_a: i64,
    content_b: Seq<char>,
    chunks_b: Seq<ChunkInput>,
    now_b: i64,
    id_b: i64,
)
    requires
        s0.wf(),
        s1.wf(),
        s2.wf(),
        create_note_post(s0, s1, content_a, chunks_a, now_a, id_a),
        create_note_post(s1, s2, content_b, chunks_b, now_b, id_b),
    ensures
        id_a != id_b,
        // the chunks owned by A sit exactly where A's ingest put them and
        // carry exactly A's inputs
        forall|i: int| 0 <= i < s2.chunks@.len()
            && (#[trigger] s2.chunks@[i]).note_id == id_a
            ==> (s0.chunks@.len() <= i < s0.chunks@.len() + chunks_a.len()
                && s2.chunks@[i].text@ == chunks_a[i - s0.chunks@.len()].text@
                && s2.chunks@[i].embedding@ == chunks_a[i - s0.chunks@.len()].embedding@),
        // and all of A's inputs are present under A's id
        forall|t: int| 0 <= t < chunks_a.len() ==> {
            let c = #[trigger] s2.chunks@[s0.chunks@.len() + t];
            &&& c.note_id == id_a
            &&& c.text@ == chunks_a[t].text@
            &&& c.embedding@ == chunks_a[t].embedding@
        },
        // none of B's chunks carries A's id
        forall|i: int| s1.chunks@.len() <= i < s2.chunks@.len()
            ==> (#[trigger] s2.chunks@[i]).note_id == id_b,
{
    assert(id_b == id_a + 1);
    assert forall|i: int| 0 <= i < s2.chunks@.len()
        && (#[trigger] s2.chunks@[i]).note_id == id_a
        implies (s0.chunks@.len() <= i < s0.chunks@.len() + chunks_a.len()
            && s2.chunks@[i].text@ == chunks_a[i - s0.chunks@.len()].text@
            && s2.chunks@[i].embedding@ == chunks_a[i - s0.chunks@.len()].embedding@) by {
        if i < s0.chunks@.len() {
            // an old chunk's owner is a note of s0, whose id is below id_a
            assert(s2.chunks@[i] == s1.chunks@[i]);
            assert(s1.chunks@[i] == s0.chunks@[i]);
            assert(s0.has_note(s0.chunks@[i].note_id));
            let w = choose|w: int| 0 <= w < s0.notes@.len()
                && (#[trigger] s0.notes@[w]).id == s0.chunks@[i].note_id;
            assert(s0.notes@[w].id < s0.next_note_id);
        } else if i < s1.chunks@.len() {
            assert(s2.chunks@[i] == s1.chunks@[i]);
        } else {
            assert(s2.chunks@[i].note_id == id_b);
        }
    }
    assert forall|t: int| 0 <= t < chunks_a.len() implies {
        let c = #[trigger] s2.chunks@[s0.chunks@.len() + t];
        &&& c.note_id == id_a
        &&& c.text@ == chunks_a[t].text@
        &&& c.embedding@ == chunks_a[t].embedding@
    } by {
        let i = s0.chunks@.len() + t;
        assert(s2.chunks@[i] == s1.chunks@[i]);
    }
}

} // verus!
