//! Read and tag operations over the note corpus: fetching one note with its
//! tags, attaching and detaching tags, and listing tags.

use vstd::prelude::*;
use crate::errors::EngineError;
use crate::store::{copy_vector, Note, NoteRow, NoteStore, NoteTagLink, Tag};

verus! {

/// The tag names attached to a note, in link order.
pub open spec fn links_for(s: Seq<NoteTagLink>, note_id: i64) -> Seq<Seq<char>>
    decreases s.len(),
{
    if s.len() == 0 {
        Seq::empty()
    } else if s.last().note_id == note_id {
        links_for(s.drop_last(), note_id).push(s.last().tag_id@)
    } else {
        links_for(s.drop_last(), note_id)
    }
}

proof fn lemma_links_for_take_step(s: Seq<NoteTagLink>, note_id: i64, i: int)
    requires
        0 <= i < s.len(),
    ensures
        links_for(s.take(i + 1), note_id) == if s[i].note_id == note_id {
            links_for(s.take(i), note_id).push(s[i].tag_id@)
        } else {
            links_for(s.take(i), note_id)
        },
{
    assert(s.take(i + 1).drop_last() =~= s.take(i));
    assert(s.take(i + 1).last() == s[i]);
}

impl NoteStore {
    /// Collects the tags attached to a note, in link order.
    #[verifier::loop_isolation(false)]
    fn collect_tags(&self, note_id: i64) -> (r: Vec<Tag>)
        ensures
            r@.len() == links_for(self.note_tags@, note_id).len(),
            forall|i: int| 0 <= i < r@.len()
                ==> (#[trigger] r@[i]).id@ == links_for(self.note_tags@, note_id)[i],
    {
        let mut r: Vec<Tag> = Vec::new();
        let mut i: usize = 0;
        while i < self.note_tags.len()
            invariant
                i <= self.note_tags@.len(),
                r@.len() == links_for(self.note_tags@.take(i as int), note_id).len(),
                forall|w: int| 0 <= w < r@.len() ==> (#[trigger] r@[w]).id@
                    == links_for(self.note_tags@.take(i as int), note_id)[w],
            decreases self.note_tags@.len() - i,
        {
            proof {
                lemma_links_for_take_step(self.note_tags@, note_id, i as int);
            }
            if self.note_tags[i].note_id == note_id {
                r.push(Tag { id: self.note_tags[i].tag_id.clone() });
            }
            i += 1;
        }
        proof {
            assert(self.note_tags@.take(self.note_tags@.len() as int) =~= self.note_tags@);
        }
        r
    }

    /// Fetches one note with its tags. A missing id is `NotFound`.
    pub fn get_note(&self, id: i64) -> (r: Result<Note, EngineError>)
        requires
            self.wf(),
        ensures
            r is Ok <==> self.has_note(id),
            r is Err ==> r == Err::<Note, EngineError>(EngineError::NotFound),
            r matches Ok(n) ==> {
                let row = self.notes@[self.note_index_of(id)];
                &&& n.id == id
                &&& n.content@ == row.content@
                &&& n.average_sentence_embedding@ == row.centroid@
                &&& n.created_at == row.created_at
                &&& n.updated_at == row.updated_at
                &&& n.tags@.len() == links_for(self.note_tags@, id).len()
                &&& forall|i: int| 0 <= i < n.tags@.len()
                    ==> (#[trigger] n.tags@[i]).id@ == links_for(self.note_tags@, id)[i]
            },
    {
        let ix = match self.find_note(id) {
            Some(ix) => ix,
            None => {
                return Err(EngineError::NotFound);
            },
        };
        proof {
            assert(self.has_note(id)) by {
                assert(self.notes@[ix as int].id == id);
            }
            let ci = self.note_index_of(id);
            assert(0 <= ci < self.notes@.len() && self.notes@[ci].id == id);
            assert(ci == ix as int);
        }
        let tags = self.collect_tags(id);
        let row = &self.notes[ix];
        Ok(Note {
            id,
            content: row.content.clone(),
            average_sentence_embedding: copy_vector(&row.centroid),
            created_at: row.created_at,
            updated_at: row.updated_at,
            tags,
        })
    }

    /// Linear search for the tag with this name.
    #[verifier::loop_isolation(false)]
    fn find_tag(&self, name: &String) -> (r: Option<usize>)
        ensures
            r matches Some(ix) ==> (ix < self.tags@.len() && self.tags@[ix as int].id@ == name@),
            r is None ==> !self.has_tag(name@),
    {
        let mut i: usize = 0;
        while i < self.tags.len()
            invariant
                i <= self.tags@.len(),
                forall|w: int| 0 <= w < i ==> (#[trigger] self.tags@[w]).id@ != name@,
            decreases self.tags@.len() - i,
        {
            if self.tags[i].id.eq(name) {
                return Some(i);
            }
            i += 1;
        }
        None
    }

    /// Linear search for the link attaching this tag to this note.
    #[verifier::loop_isolation(false)]
    fn find_link(&self, note_id: i64, tag_id: &String) -> (r: Option<usize>)
        ensures
            r matches Some(ix) ==> (ix < self.note_tags@.len()
                && self.note_tags@[ix as int].note_id == note_id
                && self.note_tags@[ix as int].tag_id@ == tag_id@),
            r is None ==> !self.has_link(note_id, tag_id@),
    {
        let mut i: usize = 0;
        while i < self.note_tags.len()
            invariant
                i <= self.note_tags@.len(),
                forall|w: int| 0 <= w < i ==> !((#[trigger] self.note_tags@[w]).note_id == note_id
                    && self.note_tags@[w].tag_id@ == tag_id@),
            decreases self.note_tags@.len() - i,
        {
            if self.note_tags[i].note_id == note_id && self.note_tags[i].tag_id.eq(tag_id) {
                return Some(i);
            }
            i += 1;
        }
        None
    }

    /// Creates a tag if absent and attaches it to the note if not already
    /// attached (both steps one logical unit, idempotent). A missing note is
    /// `NotFound`.
    pub fn create_tag(&mut self, name: String, note_id: i64) -> (r: Result<(), EngineError>)
        requires
            old(self).wf(),
        ensures
            final(self).wf(),
            r is Ok <==> old(self).has_note(note_id),
            r is Err ==> (r == Err::<(), EngineError>(EngineError::NotFound)
                && *final(self) == *old(self)),
            r is Ok ==> {
                &&& final(self).has_tag(name@)
                &&& final(self).has_link(note_id, name@)
                &&& final(self).notes@ == old(self).notes@
                &&& final(self).chunks@ == old(self).chunks@
                &&& final(self).chunk_index@ == old(self).chunk_index@
                &&& final(self).dim == old(self).dim
                &&& final(self).next_note_id == old(self).next_note_id
                &&& final(self).next_chunk_id == old(self).next_chunk_id
                &&& (old(self).has_tag(name@) ==> final(self).tags@ == old(self).tags@)
                &&& (!old(self).has_tag(name@) ==> (
                    final(self).tags@.len() == old(self).tags@.len() + 1
                    && final(self).tags@.last().id@ == name@
                    && (forall|i: int| 0 <= i < old(self).tags@.len()
                        ==> #[trigger] final(self).tags@[i] == old(self).tags@[i])))
                &&& (old(self).has_link(note_id, name@)
                    ==> final(self).note_tags@ == old(self).note_tags@)
                &&& (!old(self).has_link(note_id, name@) ==> (
                    final(self).note_tags@.len() == old(self).note_tags@.len() + 1
                    && final(self).note_tags@.last().note_id == note_id
                    && final(self).note_tags@.last().tag_id@ == name@
                    && (forall|i: int| 0 <= i < old(self).note_tags@.len()
                        ==> #[trigger] final(self).note_tags@[i] == old(self).note_tags@[i])))
            },
    {
        if self.find_note(note_id).is_none() {
            return Err(EngineError::NotFound);
        }
        let ghost pre = *self;
        if self.find_tag(&name).is_none() {
            self.tags.push(Tag { id: name.clone() });
        }
        let ghost mid = *self;
        proof {
            assert(mid.has_tag(name@)) by {
                if pre.has_tag(name@) {
                    let w = choose|w: int| 0 <= w < pre.tags@.len()
                        && (#[trigger] pre.tags@[w]).id@ == name@;
                    assert(mid.tags@[w] == pre.tags@[w]);
                } else {
                    assert(mid.tags@.last().id@ == name@);
                }
            }
            assert forall|i: int, j: int| 0 <= i < mid.tags@.len() && 0 <= j < mid.tags@.len()
                && i != j
                implies (#[trigger] mid.tags@[i]).id@ != (#[trigger] mid.tags@[j]).id@ by {
                if i < pre.tags@.len() && j < pre.tags@.len() {
                } else if j == pre.tags@.len() {
                    assert(!pre.has_tag(name@));
                    assert(pre.tags@[i].id@ != name@);
                } else if i == pre.tags@.len() {
                    assert(!pre.has_tag(name@));
                    assert(pre.tags@[j].id@ != name@);
                }
            }
            assert forall|i: int| 0 <= i < mid.note_tags@.len()
                implies mid.has_note((#[trigger] mid.note_tags@[i]).note_id)
                    && mid.has_tag(mid.note_tags@[i].tag_id@) by {
                assert(pre.has_tag(pre.note_tags@[i].tag_id@));
                let w = choose|w: int| 0 <= w < pre.tags@.len()
                    && (#[trigger] pre.tags@[w]).id@ == pre.note_tags@[i].tag_id@;
                assert(mid.tags@[w] == pre.tags@[w]);
            }
            assert(mid.wf());
        }
        let linked = self.find_link(note_id, &name).is_some();
        if !linked {
            self.note_tags.push(NoteTagLink { note_id, tag_id: name });
        }
        proof {
            let post = *self;
            assert(post.has_link(note_id, name@)) by {
                if mid.has_link(note_id, name@) {
                    let w = choose|w: int| 0 <= w < mid.note_tags@.len()
                        && (#[trigger] mid.note_tags@[w]).note_id == note_id
                        && mid.note_tags@[w].tag_id@ == name@;
                    assert(post.note_tags@[w] == mid.note_tags@[w]);
                } else {
                    assert(post.note_tags@.last().note_id == note_id);
                }
            }
            assert forall|i: int| 0 <= i < post.note_tags@.len()
                implies post.has_note((#[trigger] post.note_tags@[i]).note_id)
                    && post.has_tag(post.note_tags@[i].tag_id@) by {
                if i < mid.note_tags@.len() {
                    assert(post.note_tags@[i] == mid.note_tags@[i]);
                    assert(mid.has_note(mid.note_tags@[i].note_id));
                    let w = choose|w: int| 0 <= w < mid.notes@.len()
                        && (#[trigger] mid.notes@[w]).id == mid.note_tags@[i].note_id;
                    assert(post.notes@[w] == mid.notes@[w]);
                    assert(mid.has_tag(mid.note_tags@[i].tag_id@));
                    let t = choose|t: int| 0 <= t < mid.tags@.len()
                        && (#[trigger] mid.tags@[t]).id@ == mid.note_tags@[i].tag_id@;
                    assert(post.tags@[t] == mid.tags@[t]);
                } else {
                    assert(post.note_tags@[i].note_id == note_id);
                    assert(post.note_tags@[i].tag_id@ == name@);
                    let w = choose|w: int| 0 <= w < pre.notes@.len()
                        && (#[trigger] pre.notes@[w]).id == note_id;
                    assert(post.notes@[w] == pre.notes@[w]);
                    assert(mid.has_tag(name@));
                    let t = choose|t: int| 0 <= t < mid.tags@.len()
                        && (#[trigger] mid.tags@[t]).id@ == name@;
                    assert(post.tags@[t] == mid.tags@[t]);
                }
            }
            assert forall|i: int, j: int| 0 <= i < post.note_tags@.len()
                && 0 <= j < post.note_tags@.len() && i != j
                implies !((#[trigger] post.note_tags@[i]).note_id
                    == (#[trigger] post.note_tags@[j]).note_id
                    && post.note_tags@[i].tag_id@ == post.note_tags@[j].tag_id@) by {
                if i < mid.note_tags@.len() && j < mid.note_tags@.len() {
                } else if j == mid.note_tags@.len() {
                    assert(!mid.has_link(note_id, name@));
                } else if i == mid.note_tags@.len() {
                    assert(!mid.has_link(note_id, name@));
                }
            }
            assert(post.wf());
        }
        Ok(())
    }

    /// Detaches one tag from one note. A missing link is `NotFound`.
    pub fn delete_note_tag(&mut self, note_id: i64, tag_id: &String)
        -> (r: Result<(), EngineError>)
        requires
            old(self).wf(),
        ensures
            final(self).wf(),
            r is Ok <==> old(self).has_link(note_id, tag_id@),
            r is Err ==> (r == Err::<(), EngineError>(EngineError::NotFound)
                && *final(self) == *old(self)),
            r is Ok ==> {
                &&& !final(self).has_link(note_id, tag_id@)
                &&& final(self).note_tags@.len() == old(self).note_tags@.len() - 1
                &&& forall|x: NoteTagLink| #[trigger] final(self).note_tags@.contains(x)
                    ==> old(self).note_tags@.contains(x)
                &&& forall|x: NoteTagLink| old(self).note_tags@.contains(x)
                    && !(x.note_id == note_id && x.tag_id@ == tag_id@)
                    ==> #[trigger] final(self).note_tags@.contains(x)
                &&& final(self).notes@ == old(self).notes@
                &&& final(self).tags@ == old(self).tags@
                &&& final(self).chunks@ == old(self).chunks@
                &&& final(self).chunk_index@ == old(self).chunk_index@
                &&& final(self).dim == old(self).dim
                &&& final(self).next_note_id == old(self).next_note_id
                &&& final(self).next_chunk_id == old(self).next_chunk_id
            },
    {
        let ix = match self.find_link(note_id, tag_id) {
            Some(ix) => ix,
            None => {
                return Err(EngineError::NotFound);
            },
        };
        let ghost pre = *self;
        proof {
            assert(pre.has_link(note_id, tag_id@)) by {
                assert(pre.note_tags@[ix as int].note_id == note_id
                    && pre.note_tags@[ix as int].tag_id@ == tag_id@);
            }
        }
        self.note_tags.remove(ix);
        proof {
            let post = *self;
            assert forall|a: int| 0 <= a < post.note_tags@.len()
                implies #[trigger] post.note_tags@[a] == pre.note_tags@[
                    if a < ix as int { a } else { a + 1 }] by {}
            assert forall|x: NoteTagLink| #[trigger] post.note_tags@.contains(x)
                implies pre.note_tags@.contains(x) by {
                let w = choose|w: int| 0 <= w < post.note_tags@.len()
                    && post.note_tags@[w] == x;
                let w0 = if w < ix as int { w } else { w + 1 };
                assert(pre.note_tags@[w0] == x);
            }
            assert forall|x: NoteTagLink| pre.note_tags@.contains(x)
                && !(x.note_id == note_id && x.tag_id@ == tag_id@)
                implies #[trigger] post.note_tags@.contains(x) by {
                let w = choose|w: int| 0 <= w < pre.note_tags@.len()
                    && pre.note_tags@[w] == x;
                assert(w != ix as int);
                let w0 = if w < ix as int { w } else { w - 1 };
                assert(post.note_tags@[w0] == x);
            }
            assert(!post.has_link(note_id, tag_id@)) by {
                if post.has_link(note_id, tag_id@) {
                    let w = choose|w: int| 0 <= w < post.note_tags@.len()
                        && (#[trigger] post.note_tags@[w]).note_id == note_id
                        && post.note_tags@[w].tag_id@ == tag_id@;
                    let w0 = if w < ix as int { w } else { w + 1 };
                    assert(pre.note_tags@[w0] == post.note_tags@[w]);
                    assert(w0 != ix as int);
                    assert(false);
                }
            }
            assert forall|i: int| 0 <= i < post.note_tags@.len()
                implies post.has_note((#[trigger] post.note_tags@[i]).note_id)
                    && post.has_tag(post.note_tags@[i].tag_id@) by {
                let i0 = if i < ix as int { i } else { i + 1 };
                assert(post.note_tags@[i] == pre.note_tags@[i0]);
                assert(pre.has_note(pre.note_tags@[i0].note_id));
                let w = choose|w: int| 0 <= w < pre.notes@.len()
                    && (#[trigger] pre.notes@[w]).id == pre.note_tags@[i0].note_id;
                assert(post.notes@[w] == pre.notes@[w]);
                assert(pre.has_tag(pre.note_tags@[i0].tag_id@));
                let t = choose|t: int| 0 <= t < pre.tags@.len()
                    && (#[trigger] pre.tags@[t]).id@ == pre.note_tags@[i0].tag_id@;
                assert(post.tags@[t] == pre.tags@[t]);
            }
            assert forall|i: int, j: int| 0 <= i < post.note_tags@.len()
                && 0 <= j < post.note_tags@.len() && i != j
                implies !((#[trigger] post.note_tags@[i]).note_id
                    == (#[trigger] post.note_tags@[j]).note_id
                    && post.note_tags@[i].tag_id@ == post.note_tags@[j].tag_id@) by {
                let i0 = if i < ix as int { i } else { i + 1 };
                let j0 = if j < ix as int { j } else { j + 1 };
                assert(post.note_tags@[i] == pre.note_tags@[i0]);
                assert(post.note_tags@[j] == pre.note_tags@[j0]);
            }
            assert forall|i: int| 0 <= i < post.chunks@.len()
                implies post.has_note((#[trigger] post.chunks@[i]).note_id) by {
                assert(post.chunks@[i] == pre.chunks@[i]);
                let w = choose|w: int| 0 <= w < pre.notes@.len()
                    && (#[trigger] pre.notes@[w]).id == pre.chunks@[i].note_id;
                assert(post.notes@[w] == pre.notes@[w]);
            }
            assert(post.wf());
        }
        Ok(())
    }
}

/// The tag links that survive deleting a tag: all links not carrying it, in
/// their original order.
pub open spec fn keep_links_of_tag(s: Seq<NoteTagLink>, tag_id: Seq<char>) -> Seq<NoteTagLink>
    decreases s.len(),
{
    if s.len() == 0 {
        Seq::empty()
    } else if s.last().tag_id@ == tag_id {
        keep_links_of_tag(s.drop_last(), tag_id)
    } else {
        keep_links_of_tag(s.drop_last(), tag_id).push(s.last())
    }
}

proof fn lemma_keep_links_of_tag_take_step(s: Seq<NoteTagLink>, tag_id: Seq<char>, i: int)
    requires
        0 <= i < s.len(),
    ensures
        keep_links_of_tag(s.take(i + 1), tag_id) == if s[i].tag_id@ == tag_id {
            keep_links_of_tag(s.take(i), tag_id)
        } else {
            keep_links_of_tag(s.take(i), tag_id).push(s[i])
        },
{
    assert(s.take(i + 1).drop_last() =~= s.take(i));
    assert(s.take(i + 1).last() == s[i]);
}

/// Soundness, completeness and pair-uniqueness of the links surviving a tag
/// deletion.
pub proof fn lemma_keep_links_of_tag_props(s: Seq<NoteTagLink>, tag_id: Seq<char>)
    ensures
        forall|i: int| 0 <= i < keep_links_of_tag(s, tag_id).len()
            ==> ((#[trigger] keep_links_of_tag(s, tag_id)[i]).tag_id@ != tag_id
                && s.contains(keep_links_of_tag(s, tag_id)[i])),
        forall|i: int| 0 <= i < s.len() && (#[trigger] s[i]).tag_id@ != tag_id
            ==> keep_links_of_tag(s, tag_id).contains(s[i]),
        (forall|i: int, j: int| 0 <= i < s.len() && 0 <= j < s.len() && i != j
            ==> !((#[trigger] s[i]).note_id == (#[trigger] s[j]).note_id
                && s[i].tag_id@ == s[j].tag_id@))
            ==> (forall|i: int, j: int| 0 <= i < keep_links_of_tag(s, tag_id).len()
                && 0 <= j < keep_links_of_tag(s, tag_id).len() && i != j
                ==> !((#[trigger] keep_links_of_tag(s, tag_id)[i]).note_id
                        == (#[trigger] keep_links_of_tag(s, tag_id)[j]).note_id
                    && keep_links_of_tag(s, tag_id)[i].tag_id@
                        == keep_links_of_tag(s, tag_id)[j].tag_id@)),
    decreases s.len(),
{
    if s.len() > 0 {
        lemma_keep_links_of_tag_props(s.drop_last(), tag_id);
        let k = keep_links_of_tag(s, tag_id);
        let kd = keep_links_of_tag(s.drop_last(), tag_id);
        assert forall|i: int| 0 <= i < k.len()
            implies (k[i].tag_id@ != tag_id && s.contains(k[i])) by {
            if s.last().tag_id@ != tag_id && i == k.len() - 1 {
                assert(k[i] == s.last());
                assert(s[s.len() - 1] == s.last());
            } else {
                assert(k[i] == kd[i]);
                let w = choose|w: int| 0 <= w < s.drop_last().len()
                    && s.drop_last()[w] == kd[i];
                assert(s[w] == kd[i]);
            }
        }
        assert forall|i: int| 0 <= i < s.len() && (#[trigger] s[i]).tag_id@ != tag_id
            implies k.contains(s[i]) by {
            if i == s.len() - 1 {
                assert(k[k.len() - 1] == s[i]);
            } else {
                assert(s.drop_last()[i] == s[i]);
                assert(kd.contains(s[i]));
                let w = choose|w: int| 0 <= w < kd.len() && kd[w] == s[i];
                assert(k[w] == s[i]);
            }
        }
        if forall|i: int, j: int| 0 <= i < s.len() && 0 <= j < s.len() && i != j
            ==> !((#[trigger] s[i]).note_id == (#[trigger] s[j]).note_id
                && s[i].tag_id@ == s[j].tag_id@) {
            assert forall|i: int, j: int| 0 <= i < s.drop_last().len()
                && 0 <= j < s.drop_last().len() && i != j
                implies !((#[trigger] s.drop_last()[i]).note_id
                    == (#[trigger] s.drop_last()[j]).note_id
                    && s.drop_last()[i].tag_id@ == s.drop_last()[j].tag_id@) by {
                assert(s.drop_last()[i] == s[i]);
                assert(s.drop_last()[j] == s[j]);
            }
            assert forall|i: int, j: int| 0 <= i < k.len() && 0 <= j < k.len() && i != j
                implies !((#[trigger] k[i]).note_id == (#[trigger] k[j]).note_id
                    && k[i].tag_id@ == k[j].tag_id@) by {
                if s.last().tag_id@ != tag_id && (i == k.len() - 1 || j == k.len() - 1) {
                    let o = if i == k.len() - 1 { j } else { i };
                    assert(k[o] == kd[o]);
                    let w = choose|w: int| 0 <= w < s.drop_last().len()
                        && s.drop_last()[w] == kd[o];
                    assert(s[w] == kd[o]);
                    assert(!(s[w].note_id == s[s.len() - 1].note_id
                        && s[w].tag_id@ == s[s.len() - 1].tag_id@));
                    assert(k[k.len() - 1] == s.last());
                } else {
                    assert(k[i] == kd[i] && k[j] == kd[j]);
                }
            }
        }
    }
}

/// Keeps `v[skip .. skip + take]`, moving the values: the page that a `LIMIT
/// .. OFFSET ..` query would return.
#[verifier::loop_isolation(false)]
pub fn window_vec<T>(v: Vec<T>, skip: usize, take: usize) -> (r: Vec<T>)
    ensures
        r@ == v@.subrange(
            (if skip <= v@.len() { skip as int } else { v@.len() as int }),
            (if skip <= v@.len() {
                if skip + take <= v@.len() { skip + take } else { v@.len() as int }
            } else {
                v@.len() as int
            })),
{
    let ghost orig = v@;
    let mut v = v;
    let n = v.len();
    let start = if skip > n { n } else { skip };
    let mut i: usize = 0;
    while i < start
        invariant
            i <= start <= n == orig.len(),
            v@ == orig.skip(i as int),
        decreases start - i,
    {
        proof {
            assert(orig.skip(i as int).remove(0) =~= orig.skip(i + 1 as int));
        }
        v.remove(0);
        i += 1;
    }
    v.truncate(take);
    proof {
        if take <= orig.len() - start {
            assert(orig.skip(start as int).subrange(0, take as int)
                =~= orig.subrange(start as int, start + take));
        } else {
            assert(orig.skip(start as int)
                =~= orig.subrange(start as int, orig.len() as int));
        }
    }
    v
}

impl NoteStore {
    /// Deletes a tag and, as the same logical unit, every link carrying it.
    /// A missing tag is `NotFound`.
    pub fn delete_tag(&mut self, id: &String) -> (r: Result<(), EngineError>)
        requires
            old(self).wf(),
        ensures
            final(self).wf(),
            r is Ok <==> old(self).has_tag(id@),
            r is Err ==> (r == Err::<(), EngineError>(EngineError::NotFound)
                && *final(self) == *old(self)),
            r is Ok ==> {
                &&& !final(self).has_tag(id@)
                &&& final(self).tags@.len() == old(self).tags@.len() - 1
                &&& forall|x: int| 0 <= x < final(self).tags@.len()
                    ==> (#[trigger] final(self).tags@[x]).id@ != id@
                &&& forall|x: int| 0 <= x < final(self).tags@.len()
                    ==> old(self).tags@.contains(#[trigger] final(self).tags@[x])
                &&& final(self).note_tags@ == keep_links_of_tag(old(self).note_tags@, id@)
                &&& final(self).notes@ == old(self).notes@
                &&& final(self).chunks@ == old(self).chunks@
                &&& final(self).chunk_index@ == old(self).chunk_index@
                &&& final(self).dim == old(self).dim
                &&& final(self).next_note_id == old(self).next_note_id
                &&& final(self).next_chunk_id == old(self).next_chunk_id
            },
    {
        let ix = match self.find_tag(id) {
            Some(ix) => ix,
            None => {
                return Err(EngineError::NotFound);
            },
        };
        let ghost pre = *self;
        proof {
            assert(pre.has_tag(id@)) by {
                assert(pre.tags@[ix as int].id@ == id@);
            }
        }
        self.tags.remove(ix);

        let mut rest: Vec<NoteTagLink> = Vec::new();
        core::mem::swap(&mut self.note_tags, &mut rest);
        let total: usize = rest.len();
        let ghost all = rest@;
        let ghost mid = *self;
        let mut i: usize = 0;
        while rest.len() > 0
            invariant
                i <= all.len(),
                all.len() == total,
                rest@ == all.skip(i as int),
                self.note_tags@ == keep_links_of_tag(all.take(i as int), id@),
                self.tags@ == mid.tags@,
                self.notes@ == mid.notes@,
                self.chunks@ == mid.chunks@,
                self.chunk_index@ == mid.chunk_index@,
                self.dim == mid.dim,
                self.next_note_id == mid.next_note_id,
                self.next_chunk_id == mid.next_chunk_id,
            decreases rest@.len(),
        {
            proof {
                assert(rest@[0] == all[i as int]);
                lemma_keep_links_of_tag_take_step(all, id@, i as int);
                assert(i < all.len());
                assert(all.skip(i as int).remove(0) =~= all.skip(i + 1 as int));
            }
            let link = rest.remove(0);
            if !link.tag_id.eq(id) {
                self.note_tags.push(link);
            }
            i += 1;
        }
        proof {
            assert(all.take(all.len() as int) =~= all);
            lemma_keep_links_of_tag_props(all, id@);
            let post = *self;
            // the removed tag is gone and the others survive
            assert forall|x: int| 0 <= x < post.tags@.len()
                implies ((#[trigger] post.tags@[x]).id@ != id@
                    && pre.tags@.contains(post.tags@[x])) by {
                let x0 = if x < ix as int { x } else { x + 1 };
                assert(post.tags@[x] == pre.tags@[x0]);
                assert(x0 != ix as int);
            }
            assert(!post.has_tag(id@)) by {
                if post.has_tag(id@) {
                    let w = choose|w: int| 0 <= w < post.tags@.len()
                        && (#[trigger] post.tags@[w]).id@ == id@;
                    assert(false);
                }
            }
            assert forall|a: int, b: int| 0 <= a < post.tags@.len() && 0 <= b < post.tags@.len()
                && a != b
                implies (#[trigger] post.tags@[a]).id@ != (#[trigger] post.tags@[b]).id@ by {
                let a0 = if a < ix as int { a } else { a + 1 };
                let b0 = if b < ix as int { b } else { b + 1 };
                assert(post.tags@[a] == pre.tags@[a0]);
                assert(post.tags@[b] == pre.tags@[b0]);
            }
            // surviving links join live notes to surviving tags
            assert forall|w: int| 0 <= w < post.note_tags@.len()
                implies post.has_note((#[trigger] post.note_tags@[w]).note_id)
                    && post.has_tag(post.note_tags@[w].tag_id@) by {
                assert(all.contains(post.note_tags@[w]));
                let v = choose|v: int| 0 <= v < all.len() && all[v] == post.note_tags@[w];
                assert(pre.note_tags@[v] == post.note_tags@[w]);
                assert(pre.has_note(pre.note_tags@[v].note_id));
                let nw = choose|nw: int| 0 <= nw < pre.notes@.len()
                    && (#[trigger] pre.notes@[nw]).id == pre.note_tags@[v].note_id;
                assert(post.notes@[nw] == pre.notes@[nw]);
                assert(pre.has_tag(pre.note_tags@[v].tag_id@));
                let tw = choose|tw: int| 0 <= tw < pre.tags@.len()
                    && (#[trigger] pre.tags@[tw]).id@ == pre.note_tags@[v].tag_id@;
                assert(post.note_tags@[w].tag_id@ != id@);
                assert(tw != ix as int);
                let tw2 = if tw < ix as int { tw } else { tw - 1 };
                assert(post.tags@[tw2] == pre.tags@[tw]);
            }
            assert forall|i2: int| 0 <= i2 < post.chunks@.len()
                implies post.has_note((#[trigger] post.chunks@[i2]).note_id) by {
                assert(post.chunks@[i2] == pre.chunks@[i2]);
                let w = choose|w: int| 0 <= w < pre.notes@.len()
                    && (#[trigger] pre.notes@[w]).id == pre.chunks@[i2].note_id;
                assert(post.notes@[w] == pre.notes@[w]);
            }
            assert(post.wf());
        }
        Ok(())
    }

    /// Lists tags: all of them, or those attached to one note, in stored
    /// order, with an offset and a limit as a paged query would apply them.
    pub fn get_tags(&self, note_id: Option<i64>, take: Option<u32>, skip: Option<u32>)
        -> (r: Vec<Tag>)
        requires
            self.wf(),
        ensures
            ({
                let names = match note_id {
                    Some(id) => links_for(self.note_tags@, id),
                    None => self.tags@.map_values(|t: Tag| t.id@),
                };
                let sk = (match skip { Some(s) => s, None => 0u32 }) as int;
                let tk = (match take { Some(t) => t, None => 50u32 }) as int;
                let lo = if sk <= names.len() { sk } else { names.len() as int };
                let hi = if sk <= names.len() {
                    if sk + tk <= names.len() { sk + tk } else { names.len() as int }
                } else {
                    names.len() as int
                };
                &&& r@.len() == hi - lo
                &&& forall|i: int| 0 <= i < r@.len()
                    ==> (#[trigger] r@[i]).id@ == names[lo + i]
            }),
    {
        let full: Vec<Tag> = match note_id {
            Some(id) => self.collect_tags(id),
            None => {
                let mut out: Vec<Tag> = Vec::new();
                let mut i: usize = 0;
                while i < self.tags.len()
                    invariant
                        i <= self.tags@.len(),
                        out@.len() == i,
                        forall|w: int| 0 <= w < i
                            ==> (#[trigger] out@[w]).id@ == self.tags@[w].id@,
                    decreases self.tags@.len() - i,
                {
                    out.push(Tag { id: self.tags[i].id.clone() });
                    i += 1;
                }
                out
            },
        };
        let sk = match skip {
            Some(s) => s as usize,
            None => 0,
        };
        let tk = match take {
            Some(t) => t as usize,
            None => 50,
        };
        let ghost full_seq = full@;
        let r = window_vec(full, sk, tk);
        proof {
            let names = match note_id {
                Some(id) => links_for(self.note_tags@, id),
                None => self.tags@.map_values(|t: Tag| t.id@),
            };
            assert(full_seq.len() == names.len());
            assert forall|i: int| 0 <= i < full_seq.len()
                implies (#[trigger] full_seq[i]).id@ == names[i] by {}
        }
        r
    }
}

/// Filter parameters of a note listing: tag names to filter by (all of them
/// or any of them), and an offset and a limit as a paged query would apply
/// them. A negative or missing limit means no limit; a negative or missing
/// offset means none.
#[derive(Debug)]
pub struct SearchParams {
    pub tag_ids: Vec<String>,
    pub match_all: bool,
    pub take: Option<i64>,
    pub skip: Option<i64>,
}

/// Whether a note passes the tag filter: with no tags given, every note;
/// with `match_all`, a note linked to every given tag; otherwise a note
/// linked to at least one.
pub open spec fn matches_params(s: NoteStore, id: i64, params: SearchParams) -> bool {
    if params.tag_ids@.len() == 0 {
        true
    } else if params.match_all {
        forall|t: int| 0 <= t < params.tag_ids@.len()
            ==> s.has_link(id, (#[trigger] params.tag_ids@[t])@)
    } else {
        exists|t: int| 0 <= t < params.tag_ids@.len()
            && s.has_link(id, (#[trigger] params.tag_ids@[t])@)
    }
}

/// Strict listing order: most recently updated first, larger id first among
/// equals.
pub open spec fn note_key_gt(a: NoteRow, b: NoteRow) -> bool {
    a.updated_at > b.updated_at || (a.updated_at == b.updated_at && a.id > b.id)
}

/// A returned note carries exactly the fields and tags of the stored row at
/// index `w`.
pub open spec fn note_from_row(s: NoteStore, n: Note, w: int) -> bool {
    &&& n.id == s.notes@[w].id
    &&& n.content@ == s.notes@[w].content@
    &&& n.average_sentence_embedding@ == s.notes@[w].centroid@
    &&& n.created_at == s.notes@[w].created_at
    &&& n.updated_at == s.notes@[w].updated_at
    &&& n.tags@.len() == links_for(s.note_tags@, s.notes@[w].id).len()
    &&& forall|i: int| 0 <= i < n.tags@.len()
        ==> (#[trigger] n.tags@[i]).id@ == links_for(s.note_tags@, s.notes@[w].id)[i]
}

/// First index of the page that an offset selects.
pub open spec fn page_lo(skip: Option<i64>, n: int) -> int {
    let sk: int = match skip {
        None => 0,
        Some(s) => if s < 0 { 0 } else { s as int },
    };
    if sk <= n {
        sk
    } else {
        n
    }
}

/// One past the last index of the page that a limit selects.
pub open spec fn page_hi(take: Option<i64>, lo: int, n: int) -> int {
    match take {
        None => n,
        Some(t) => if t < 0 {
            n
        } else if lo + t <= n {
            lo + t
        } else {
            n
        },
    }
}

impl NoteStore {
    /// Whether a note passes the tag filter, executably.
    #[verifier::loop_isolation(false)]
    fn matches_filter(&self, id: i64, params: &SearchParams) -> (r: bool)
        ensures
            r == matches_params(*self, id, *params),
    {
        if params.tag_ids.len() == 0 {
            return true;
        }
        if params.match_all {
            let mut t: usize = 0;
            while t < params.tag_ids.len()
                invariant
                    t <= params.tag_ids@.len(),
                    forall|w: int| 0 <= w < t
                        ==> self.has_link(id, (#[trigger] params.tag_ids@[w])@),
                decreases params.tag_ids@.len() - t,
            {
                if self.find_link(id, &params.tag_ids[t]).is_none() {
                    return false;
                }
                t += 1;
            }
            true
        } else {
            let mut t: usize = 0;
            while t < params.tag_ids.len()
                invariant
                    t <= params.tag_ids@.len(),
                    forall|w: int| 0 <= w < t
                        ==> !self.has_link(id, (#[trigger] params.tag_ids@[w])@),
                decreases params.tag_ids@.len() - t,
            {
                if self.find_link(id, &params.tag_ids[t]).is_some() {
                    return true;
                }
                t += 1;
            }
            false
        }
    }

    /// Lists the notes that pass the tag filter, each with its tags, most
    /// recently updated first (larger id first among equals), with the
    /// offset and limit applied to that order.
    #[verifier::loop_isolation(false)]
    pub fn get_notes(&self, params: SearchParams) -> (r: Vec<Note>)
        requires
            self.wf(),
        ensures
            exists|ixs: Seq<usize>|
                {
                    &&& forall|a: int| 0 <= a < ixs.len() ==> ((#[trigger] ixs[a]) < self.notes@.len()
                        && matches_params(*self, self.notes@[ixs[a] as int].id, params))
                    &&& forall|a: int, b: int| 0 <= a < b < ixs.len()
                        ==> note_key_gt(self.notes@[(#[trigger] ixs[a]) as int],
                            self.notes@[(#[trigger] ixs[b]) as int])
                    &&& forall|w: int| 0 <= w < self.notes@.len()
                        && matches_params(*self, (#[trigger] self.notes@[w]).id, params)
                        ==> ixs.contains(w as usize)
                    &&& r@.len() == page_hi(params.take, page_lo(params.skip, ixs.len() as int),
                        ixs.len() as int) - page_lo(params.skip, ixs.len() as int)
                    &&& forall|a: int| 0 <= a < r@.len() ==> note_from_row(*self, #[trigger] r@[a],
                        ixs[page_lo(params.skip, ixs.len() as int) + a] as int)
                },
    {
        // collect the indices of the matching notes
        let mut sel: Vec<usize> = Vec::new();
        let mut i: usize = 0;
        while i < self.notes.len()
            invariant
                i <= self.notes@.len(),
                forall|a: int| 0 <= a < sel@.len() ==> ((#[trigger] sel@[a]) < i
                    && matches_params(*self, self.notes@[sel@[a] as int].id, params)),
                forall|w: int| 0 <= w < i
                    && matches_params(*self, (#[trigger] self.notes@[w]).id, params)
                    ==> sel@.contains(w as usize),
                forall|a: int, b: int| 0 <= a < b < sel@.len()
                    ==> (#[trigger] sel@[a]) < (#[trigger] sel@[b]),
            decreases self.notes@.len() - i,
        {
            if self.matches_filter(self.notes[i].id, &params) {
                let ghost prev = sel@;
                sel.push(i);
                proof {
                    assert forall|w: int| 0 <= w < i + 1
                        && matches_params(*self, (#[trigger] self.notes@[w]).id, params)
                        implies sel@.contains(w as usize) by {
                        if w < i {
                            let v = choose|v: int| 0 <= v < prev.len()
                                && prev[v] == w as usize;
                            assert(sel@[v] == w as usize);
                        } else {
                            assert(sel@[sel@.len() - 1] == w as usize);
                        }
                    }
                }
            } else {
                proof {
                    assert forall|w: int| 0 <= w < i + 1
                        && matches_params(*self, (#[trigger] self.notes@[w]).id, params)
                        implies sel@.contains(w as usize) by {
                        if w < i {
                        } else {
                            assert(!matches_params(*self, self.notes@[w].id, params));
                        }
                    }
                }
            }
            i += 1;
        }

        // sort the indices: most recently updated first, larger id first
        let mut sorted: Vec<usize> = Vec::new();
        let mut i: usize = 0;
        while i < sel.len()
            invariant
                i <= sel@.len(),
                sorted@.len() == i,
                forall|a: int| 0 <= a < sorted@.len() ==> (#[trigger] sorted@[a]) < self.notes@.len(),
                forall|x: usize| #[trigger] sorted@.contains(x) <==> sel@.take(i as int).contains(x),
                forall|a: int, b: int| 0 <= a < b < sorted@.len()
                    ==> note_key_gt(self.notes@[(#[trigger] sorted@[a]) as int],
                        self.notes@[(#[trigger] sorted@[b]) as int]),
                forall|a: int, b: int| 0 <= a < sorted@.len() && 0 <= b < sorted@.len() && a != b
                    ==> (#[trigger] sorted@[a]) != (#[trigger] sorted@[b]),
                forall|a: int| 0 <= a < sel@.len() ==> (#[trigger] sel@[a]) < self.notes@.len(),
            decreases sel@.len() - i,
        {
            let x = sel[i];
            let mut p: usize = 0;
            while p < sorted.len()
                invariant
                    p <= sorted@.len(),
                    forall|a: int| 0 <= a < p
                        ==> note_key_gt(self.notes@[(#[trigger] sorted@[a]) as int],
                            self.notes@[x as int]),
                decreases sorted@.len() - p,
            {
                proof {
                    let y = sorted@[p as int];
                    if !note_key_gt(self.notes@[y as int], self.notes@[x as int])
                        && !note_key_gt(self.notes@[x as int], self.notes@[y as int]) {
                        // equal keys would mean two notes share an id
                        assert(sorted@.contains(y));
                        assert(sel@.take(i as int).contains(y));
                        let w = choose|w: int| 0 <= w < i
                            && #[trigger] sel@.take(i as int)[w] == y;
                        assert(sel@[w] == y);
                        assert(y != x);
                        assert(self.notes@[y as int].id == self.notes@[x as int].id);
                        assert(false);
                    }
                }
                let sp = sorted[p];
                let gt = {
                    let na = &self.notes[x];
                    let nb = &self.notes[sp];
                    na.updated_at > nb.updated_at
                        || (na.updated_at == nb.updated_at && na.id > nb.id)
                };
                if gt {
                    break;
                }
                p += 1;
            }
            let ghost prev = sorted@;
            sorted.insert(p, x);
            proof {
                assert forall|a: int, b: int| 0 <= a < b < sorted@.len()
                    implies note_key_gt(self.notes@[(#[trigger] sorted@[a]) as int],
                        self.notes@[(#[trigger] sorted@[b]) as int]) by {
                    if b < p {
                        assert(sorted@[a] == prev[a] && sorted@[b] == prev[b]);
                    } else if a > p {
                        assert(sorted@[a] == prev[a - 1] && sorted@[b] == prev[b - 1]);
                    } else if a == p as int {
                        assert(sorted@[a] == x && sorted@[b] == prev[b - 1]);
                        assert(note_key_gt(self.notes@[x as int],
                            self.notes@[prev[p as int] as int]));
                        if b - 1 > p {
                            assert(note_key_gt(self.notes@[prev[p as int] as int],
                                self.notes@[prev[b - 1] as int]));
                        }
                    } else if b == p as int {
                        assert(sorted@[a] == prev[a] && sorted@[b] == x);
                    } else {
                        assert(sorted@[a] == prev[a] && sorted@[b] == prev[b - 1]);
                        if a == b - 1 {
                            assert(note_key_gt(self.notes@[prev[a] as int],
                                self.notes@[x as int]));
                        }
                    }
                }
                assert forall|x2: usize| #[trigger] sorted@.contains(x2)
                    implies sel@.take(i + 1 as int).contains(x2) by {
                    let w = choose|w: int| 0 <= w < sorted@.len() && sorted@[w] == x2;
                    if w < p {
                        assert(prev[w] == x2);
                        assert(prev.contains(x2));
                        assert(sel@.take(i as int).contains(x2));
                        let v = choose|v: int| 0 <= v < i
                            && #[trigger] sel@.take(i as int)[v] == x2;
                        assert(sel@.take(i + 1 as int)[v] == x2);
                    } else if w > p {
                        assert(prev[w - 1] == x2);
                        assert(prev.contains(x2));
                        assert(sel@.take(i as int).contains(x2));
                        let v = choose|v: int| 0 <= v < i
                            && #[trigger] sel@.take(i as int)[v] == x2;
                        assert(sel@.take(i + 1 as int)[v] == x2);
                    } else {
                        assert(x2 == x);
                        assert(sel@.take(i + 1 as int)[i as int] == x);
                    }
                }
                assert forall|x2: usize| sel@.take(i + 1 as int).contains(x2)
                    implies #[trigger] sorted@.contains(x2) by {
                    let v = choose|v: int| 0 <= v < i + 1
                        && #[trigger] sel@.take(i + 1 as int)[v] == x2;
                    if v < i {
                        assert(sel@.take(i as int)[v] == x2);
                        assert(prev.contains(x2));
                        let w = choose|w: int| 0 <= w < prev.len() && prev[w] == x2;
                        if w < p {
                            assert(sorted@[w] == x2);
                        } else {
                            assert(sorted@[w + 1] == x2);
                        }
                    } else {
                        assert(x2 == x);
                        assert(sorted@[p as int] == x);
                    }
                }
                assert forall|a: int, b: int| 0 <= a < sorted@.len() && 0 <= b < sorted@.len()
                    && a != b
                    implies (#[trigger] sorted@[a]) != (#[trigger] sorted@[b]) by {
                    if a < b {
                        assert(note_key_gt(self.notes@[sorted@[a] as int],
                            self.notes@[sorted@[b] as int]));
                    } else {
                        assert(note_key_gt(self.notes@[sorted@[b] as int],
                            self.notes@[sorted@[a] as int]));
                    }
                }
            }
            i += 1;
        }
        proof {
            assert(sel@.take(sel@.len() as int) =~= sel@);
            assert forall|w: int| 0 <= w < self.notes@.len()
                && matches_params(*self, (#[trigger] self.notes@[w]).id, params)
                implies sorted@.contains(w as usize) by {
                assert(sel@.contains(w as usize));
            }
        }
        let ghost full = sorted@;

        // apply the offset and the limit
        let n = sorted.len();
        let lo: usize = match params.skip {
            None => 0,
            Some(sk) => if sk <= 0 {
                0
            } else if sk as u64 >= n as u64 {
                n
            } else {
                sk as usize
            },
        };
        let tk: usize = match params.take {
            None => n,
            Some(t) => if t < 0 {
                n
            } else if t as u64 >= n as u64 {
                n
            } else {
                t as usize
            },
        };
        let page = window_vec(sorted, lo, tk);
        proof {
            assert(lo as int == page_lo(params.skip, full.len() as int));
            assert(page@.len() == page_hi(params.take, lo as int, full.len() as int) - lo);
        }

        // materialize the page
        let mut out: Vec<Note> = Vec::new();
        let mut a: usize = 0;
        while a < page.len()
            invariant
                a <= page@.len(),
                out@.len() == a,
                forall|b: int| 0 <= b < page@.len() ==> (#[trigger] page@[b]) < self.notes@.len(),
                forall|b: int| 0 <= b < a
                    ==> note_from_row(*self, #[trigger] out@[b], page@[b] as int),
            decreases page@.len() - a,
        {
            let w = page[a];
            let row = &self.notes[w];
            let tags = self.collect_tags(row.id);
            out.push(Note {
                id: row.id,
                content: row.content.clone(),
                average_sentence_embedding: copy_vector(&row.centroid),
                created_at: row.created_at,
                updated_at: row.updated_at,
                tags,
            });
            a += 1;
        }
        proof {
            let lo_s = page_lo(params.skip, full.len() as int);
            let hi_s = page_hi(params.take, lo_s, full.len() as int);
            assert(out@.len() == hi_s - lo_s);
            assert forall|b: int| 0 <= b < out@.len()
                implies note_from_row(*self, #[trigger] out@[b], full[lo_s + b] as int) by {
                assert(page@[b] == full[lo_s + b]);
            }
            assert forall|a2: int| 0 <= a2 < full.len()
                implies ((#[trigger] full[a2]) < self.notes@.len()
                    && matches_params(*self, self.notes@[full[a2] as int].id, params)) by {
                assert(full.contains(full[a2]));
                assert(sel@.contains(full[a2]));
                let v = choose|v: int| 0 <= v < sel@.len() && #[trigger] sel@[v] == full[a2];
            }
            assert(forall|a2: int, b2: int| 0 <= a2 < b2 < full.len()
                ==> note_key_gt(self.notes@[(#[trigger] full[a2]) as int],
                    self.notes@[(#[trigger] full[b2]) as int]));
            assert(forall|w: int| 0 <= w < self.notes@.len()
                && matches_params(*self, (#[trigger] self.notes@[w]).id, params)
                ==> full.contains(w as usize));
            assert(out@.len() == page_hi(params.take, page_lo(params.skip, full.len() as int),
                full.len() as int) - page_lo(params.skip, full.len() as int));
            assert(forall|a2: int| 0 <= a2 < out@.len() ==> note_from_row(*self,
                #[trigger] out@[a2],
                full[page_lo(params.skip, full.len() as int) + a2] as int));
        }
        out
    }
}

} // verus!
