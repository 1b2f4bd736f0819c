//! Similarity query planning. The vector index hands back nearest-neighbor
//! candidates: chunk ids with distances in the index's metric, held here as
//! fixed-point integers. The planner keeps the candidates within the distance
//! bound (smaller distance means more similar — the conventional
//! nearest-neighbor direction, chosen and documented here), joins each
//! surviving chunk to its owning note, keeps one entry per note (the closest
//! match), orders the entries by rising distance with the note id as the tie
//! break, and returns at most `k` of them.

use vstd::prelude::*;
use crate::store::{NoteStore, SearchMatch};

verus! {

/// A nearest-neighbor candidate as the vector index returns it: the id of an
/// index row and its distance from the query vector.
#[derive(Clone, Copy, Debug, PartialEq, Eq, Structural)]
pub struct Candidate {
    pub chunk_id: i64,
    pub distance: i64,
}

/// Strict ordering of matches: by distance, then by note id.
pub open spec fn match_lt(a: SearchMatch, b: SearchMatch) -> bool {
    a.distance < b.distance || (a.distance == b.distance && a.note_id < b.note_id)
}

/// The candidates that survive the distance bound and resolve to a stored
/// chunk, joined to their owning note, in candidate order.
pub open spec fn resolved_matches(s: NoteStore, cands: Seq<Candidate>, bound: i64)
    -> Seq<SearchMatch>
    decreases cands.len(),
{
    if cands.len() == 0 {
        Seq::empty()
    } else {
        let rest = resolved_matches(s, cands.drop_last(), bound);
        let c = cands.last();
        if c.distance <= bound && s.has_chunk(c.chunk_id) {
            rest.push(SearchMatch { note_id: s.chunk_owner(c.chunk_id), distance: c.distance })
        } else {
            rest
        }
    }
}

/// Some resolved match is for this note.
pub open spec fn has_match_for(ms: Seq<SearchMatch>, note_id: i64) -> bool {
    exists|i: int| 0 <= i < ms.len() && (#[trigger] ms[i]).note_id == note_id
}

/// The smallest distance of any match for this note.
pub open spec fn best_dist(ms: Seq<SearchMatch>, note_id: i64) -> int
    decreases ms.len(),
{
    if ms.len() == 0 {
        0
    } else {
        let rest = best_dist(ms.drop_last(), note_id);
        if ms.last().note_id == note_id {
            if has_match_for(ms.drop_last(), note_id) {
                if ms.last().distance < rest {
                    ms.last().distance as int
                } else {
                    rest
                }
            } else {
                ms.last().distance as int
            }
        } else {
            rest
        }
    }
}

proof fn lemma_resolved_take_step(s: NoteStore, cands: Seq<Candidate>, bound: i64, i: int)
    requires
        0 <= i < cands.len(),
    ensures
        resolved_matches(s, cands.take(i + 1), bound)
            == if cands[i].distance <= bound && s.has_chunk(cands[i].chunk_id) {
            resolved_matches(s, cands.take(i), bound).push(
                SearchMatch {
                    note_id: s.chunk_owner(cands[i].chunk_id),
                    distance: cands[i].distance,
                })
        } else {
            resolved_matches(s, cands.take(i), bound)
        },
{
    assert(cands.take(i + 1).drop_last() =~= cands.take(i));
    assert(cands.take(i + 1).last() == cands[i]);
}

proof fn lemma_best_take_step(ms: Seq<SearchMatch>, note_id: i64, i: int)
    requires
        0 <= i < ms.len(),
    ensures
        has_match_for(ms.take(i + 1), note_id) <==> (has_match_for(ms.take(i), note_id)
            || ms[i].note_id == note_id),
        best_dist(ms.take(i + 1), note_id) == (if ms[i].note_id == note_id {
            if has_match_for(ms.take(i), note_id) {
                if ms[i].distance < best_dist(ms.take(i), note_id) {
                    ms[i].distance as int
                } else {
                    best_dist(ms.take(i), note_id)
                }
            } else {
                ms[i].distance as int
            }
        } else {
            best_dist(ms.take(i), note_id)
        }),
{
    assert(ms.take(i + 1).drop_last() =~= ms.take(i));
    assert(ms.take(i + 1).last() == ms[i]);
    if has_match_for(ms.take(i), note_id) {
        let w = choose|w: int| 0 <= w < ms.take(i).len()
            && (#[trigger] ms.take(i)[w]).note_id == note_id;
        assert(ms.take(i + 1)[w].note_id == note_id);
    }
    if ms[i].note_id == note_id {
        assert(ms.take(i + 1)[i].note_id == note_id);
    }
    if has_match_for(ms.take(i + 1), note_id) && ms[i].note_id != note_id {
        let w = choose|w: int| 0 <= w < ms.take(i + 1).len()
            && (#[trigger] ms.take(i + 1)[w]).note_id == note_id;
        assert(ms.take(i)[w].note_id == note_id);
    }
}

/// The best entry for a note is attained by one of its matches and is a
/// lower bound for all of them.
proof fn lemma_best_props(ms: Seq<SearchMatch>, note_id: i64)
    requires
        has_match_for(ms, note_id),
    ensures
        exists|i: int| 0 <= i < ms.len() && (#[trigger] ms[i]).note_id == note_id
            && ms[i].distance == best_dist(ms, note_id),
        forall|i: int| 0 <= i < ms.len() && (#[trigger] ms[i]).note_id == note_id
            ==> best_dist(ms, note_id) <= ms[i].distance,
    decreases ms.len(),
{
    let dl = ms.drop_last();
    if has_match_for(dl, note_id) {
        lemma_best_props(dl, note_id);
        let w = choose|w: int| 0 <= w < dl.len() && (#[trigger] dl[w]).note_id == note_id
            && dl[w].distance == best_dist(dl, note_id);
        assert(ms[w] == dl[w]);
        if !(ms.last().note_id == note_id && ms.last().distance < best_dist(dl, note_id)) {
            assert(ms[w].note_id == note_id && ms[w].distance == best_dist(ms, note_id));
        }
        assert forall|i: int| 0 <= i < ms.len() && (#[trigger] ms[i]).note_id == note_id
            implies best_dist(ms, note_id) <= ms[i].distance by {
            if i < ms.len() - 1 {
                assert(dl[i] == ms[i]);
            }
        }
    } else {
        assert(ms.last().note_id == note_id) by {
            let w = choose|w: int| 0 <= w < ms.len() && (#[trigger] ms[w]).note_id == note_id;
            if w < ms.len() - 1 {
                assert(dl[w].note_id == note_id);
            }
        }
        assert forall|i: int| 0 <= i < ms.len() && (#[trigger] ms[i]).note_id == note_id
            implies best_dist(ms, note_id) <= ms[i].distance by {
            if i < ms.len() - 1 {
                assert(dl[i].note_id == note_id);
            }
        }
    }
}

/// Every resolved match is within the bound and names an existing note.
proof fn lemma_resolved_props(s: NoteStore, cands: Seq<Candidate>, bound: i64)
    requires
        s.wf(),
    ensures
        forall|i: int| 0 <= i < resolved_matches(s, cands, bound).len() ==> {
            let m = #[trigger] resolved_matches(s, cands, bound)[i];
            &&& m.distance <= bound
            &&& s.has_note(m.note_id)
        },
    decreases cands.len(),
{
    if cands.len() > 0 {
        lemma_resolved_props(s, cands.drop_last(), bound);
        let c = cands.last();
        let r = resolved_matches(s, cands, bound);
        let rest = resolved_matches(s, cands.drop_last(), bound);
        if c.distance <= bound && s.has_chunk(c.chunk_id) {
            let w = choose|w: int| 0 <= w < s.chunks@.len()
                && (#[trigger] s.chunks@[w]).id == c.chunk_id;
            assert(s.has_note(s.chunks@[w].note_id));
            assert(s.chunk_owner(c.chunk_id) == s.chunks@[w].note_id);
        }
        assert forall|i: int| 0 <= i < r.len() implies {
            let m = #[trigger] r[i];
            &&& m.distance <= bound
            &&& s.has_note(m.note_id)
        } by {
            if i < rest.len() {
                assert(r[i] == rest[i]);
            }
        }
    }
}

/// Executable form of the strict match ordering.
fn lt_match(a: &SearchMatch, b: &SearchMatch) -> (r: bool)
    ensures
        r == match_lt(*a, *b),
{
    a.distance < b.distance || (a.distance == b.distance && a.note_id < b.note_id)
}

/// Linear search for the entry of this note.
#[verifier::loop_isolation(false)]
fn find_match_index(v: &Vec<SearchMatch>, note_id: i64) -> (r: Option<usize>)
    ensures
        r matches Some(j) ==> (j < v@.len() && v@[j as int].note_id == note_id),
        r is None ==> forall|a: int| 0 <= a < v@.len()
            ==> (#[trigger] v@[a]).note_id != note_id,
{
    let mut j: usize = 0;
    while j < v.len()
        invariant
            j <= v@.len(),
            forall|a: int| 0 <= a < j ==> (#[trigger] v@[a]).note_id != note_id,
        decreases v@.len() - j,
    {
        if v[j].note_id == note_id {
            return Some(j);
        }
        j += 1;
    }
    None
}

proof fn lemma_insert_contains(s: Seq<SearchMatch>, p: int, m: SearchMatch)
    requires
        0 <= p <= s.len(),
    ensures
        forall|x: SearchMatch| #[trigger] s.insert(p, m).contains(x)
            <==> (s.contains(x) || x == m),
{
    let t = s.insert(p, m);
    assert forall|x: SearchMatch| #[trigger] t.contains(x)
        implies (s.contains(x) || x == m) by {
        let w = choose|w: int| 0 <= w < t.len() && t[w] == x;
        if w < p {
            assert(s[w] == x);
        } else if w > p {
            assert(s[w - 1] == x);
        }
    }
    assert forall|x: SearchMatch| (s.contains(x) || x == m) implies #[trigger] t.contains(x) by {
        if x == m {
            assert(t[p] == x);
        } else {
            let w = choose|w: int| 0 <= w < s.len() && s[w] == x;
            if w < p {
                assert(t[w] == x);
            } else {
                assert(t[w + 1] == x);
            }
        }
    }
}

impl NoteStore {
    /// Linear search for the chunk with this id.
    #[verifier::loop_isolation(false)]
    pub fn find_chunk(&self, id: i64) -> (r: Option<usize>)
        ensures
            r matches Some(ix) ==> (ix < self.chunks@.len()
                && self.chunks@[ix as int].id == id),
            r is None ==> !self.has_chunk(id),
    {
        let mut i: usize = 0;
        while i < self.chunks.len()
            invariant
                i <= self.chunks@.len(),
                forall|w: int| 0 <= w < i ==> (#[trigger] self.chunks@[w]).id != id,
            decreases self.chunks@.len() - i,
        {
            if self.chunks[i].id == id {
                return Some(i);
            }
            i += 1;
        }
        None
    }

    /// Ranks nearest-neighbor candidates: keeps those within `bound` that
    /// resolve to a stored chunk, joins them to their owning notes, keeps the
    /// single closest match per note, orders by rising distance (note id as
    /// tie break) and returns at most `k` entries. Every returned id resolves
    /// to an existing note; if fewer than `k` entries return, every note with
    /// a qualifying candidate is among them; if exactly `k` return, every
    /// left-out note's best match sorts after the last returned entry.
    #[verifier::loop_isolation(false)]
    pub fn plan_similarity(&self, candidates: &Vec<Candidate>, k: usize, bound: i64)
        -> (r: Vec<SearchMatch>)
        requires
            self.wf(),
        ensures
            r@.len() <= k,
            forall|i: int, j: int| 0 <= i < j < r@.len()
                ==> match_lt(#[trigger] r@[i], #[trigger] r@[j]),
            forall|i: int, j: int| 0 <= i < r@.len() && 0 <= j < r@.len() && i != j
                ==> (#[trigger] r@[i]).note_id != (#[trigger] r@[j]).note_id,
            forall|i: int| 0 <= i < r@.len() ==> {
                let m = #[trigger] r@[i];
                &&& self.has_note(m.note_id)
                &&& m.distance <= bound
                &&& has_match_for(resolved_matches(*self, candidates@, bound), m.note_id)
                &&& m.distance == best_dist(resolved_matches(*self, candidates@, bound), m.note_id)
            },
            forall|id: i64|
                #[trigger] has_match_for(resolved_matches(*self, candidates@, bound), id)
                ==> ((exists|i: int| 0 <= i < r@.len() && (#[trigger] r@[i]).note_id == id)
                    || (r@.len() == k && (k == 0 || match_lt(r@[k - 1], SearchMatch {
                        note_id: id,
                        distance: best_dist(
                            resolved_matches(*self, candidates@, bound), id) as i64,
                    })))),
    {
        let ghost resolved = resolved_matches(*self, candidates@, bound);

        // resolve candidates within the bound to (note, distance) matches
        let mut ms: Vec<SearchMatch> = Vec::new();
        let mut i: usize = 0;
        while i < candidates.len()
            invariant
                i <= candidates@.len(),
                ms@ == resolved_matches(*self, candidates@.take(i as int), bound),
            decreases candidates@.len() - i,
        {
            proof {
                lemma_resolved_take_step(*self, candidates@, bound, i as int);
            }
            let c = candidates[i];
            if c.distance <= bound {
                match self.find_chunk(c.chunk_id) {
                    Some(ix) => {
                        let owner = self.chunks[ix].note_id;
                        proof {
                            assert(self.has_chunk(c.chunk_id)) by {
                                assert(self.chunks@[ix as int].id == c.chunk_id);
                            }
                            let w = choose|w: int| 0 <= w < self.chunks@.len()
                                && (#[trigger] self.chunks@[w]).id == c.chunk_id;
                            assert(w == ix as int);
                            assert(self.chunk_owner(c.chunk_id) == owner);
                        }
                        ms.push(SearchMatch { note_id: owner, distance: c.distance });
                    },
                    None => {},
                }
            }
            i += 1;
        }
        proof {
            assert(candidates@.take(candidates@.len() as int) =~= candidates@);
            assert(ms@ == resolved);
        }

        let ghost msv = ms@;
        let r = rank_matches(ms, k);
        proof {
            assert(msv == resolved);
            assert forall|i: int| 0 <= i < r@.len() implies {
                let m = #[trigger] r@[i];
                &&& self.has_note(m.note_id)
                &&& m.distance <= bound
            } by {
                lemma_best_props(resolved, r@[i].note_id);
                lemma_resolved_props(*self, candidates@, bound);
                let v = choose|v: int| 0 <= v < resolved.len()
                    && (#[trigger] resolved[v]).note_id == r@[i].note_id
                    && resolved[v].distance == best_dist(resolved, r@[i].note_id);
            }
        }
        r
    }
}

/// Reduces raw matches to ranked results: one entry per note (its closest
/// match), ordered by rising distance with the note id as tie break, at most
/// `k` entries, and nothing closer left out.
#[verifier::loop_isolation(false)]
pub(crate) fn rank_matches(ms: Vec<SearchMatch>, k: usize) -> (r: Vec<SearchMatch>)
    ensures
        r@.len() <= k,
        forall|i: int, j: int| 0 <= i < j < r@.len()
            ==> match_lt(#[trigger] r@[i], #[trigger] r@[j]),
        forall|i: int, j: int| 0 <= i < r@.len() && 0 <= j < r@.len() && i != j
            ==> (#[trigger] r@[i]).note_id != (#[trigger] r@[j]).note_id,
        forall|i: int| 0 <= i < r@.len() ==> {
            let m = #[trigger] r@[i];
            &&& has_match_for(ms@, m.note_id)
            &&& m.distance == best_dist(ms@, m.note_id)
        },
        forall|id: i64| #[trigger] has_match_for(ms@, id)
            ==> ((exists|i: int| 0 <= i < r@.len() && (#[trigger] r@[i]).note_id == id)
                || (r@.len() == k && (k == 0 || match_lt(r@[k - 1], SearchMatch {
                    note_id: id,
                    distance: best_dist(ms@, id) as i64,
                })))),
{
    let ghost resolved = ms@;
    // keep the single best match per note
    let mut best: Vec<SearchMatch> = Vec::new();
    let mut i: usize = 0;
    while i < ms.len()
        invariant
            i <= ms@.len(),
            ms@ == resolved,
            forall|a: int, b: int| 0 <= a < best@.len() && 0 <= b < best@.len() && a != b
                ==> (#[trigger] best@[a]).note_id != (#[trigger] best@[b]).note_id,
            forall|a: int| 0 <= a < best@.len() ==> {
                let e = #[trigger] best@[a];
                &&& has_match_for(resolved.take(i as int), e.note_id)
                &&& e.distance == best_dist(resolved.take(i as int), e.note_id)
            },
            forall|id: i64| #[trigger] has_match_for(resolved.take(i as int), id)
                ==> exists|a: int| 0 <= a < best@.len()
                    && (#[trigger] best@[a]).note_id == id,
        decreases ms@.len() - i,
    {
        let m = ms[i];
        let ghost prev = best@;
        let pos = find_match_index(&best, m.note_id);
        match pos {
            Some(j) => {
                if m.distance < best[j].distance {
                    best.remove(j);
                    best.push(m);
                    proof {
                        let n = best@.len();
                        assert forall|a: int| 0 <= a < n implies
                            #[trigger] best@[a] == (if a < j { prev[a] }
                                else if a < n - 1 { prev[a + 1] } else { m }) by {}
                        assert forall|a: int, b: int| 0 <= a < n && 0 <= b < n && a != b
                            implies (#[trigger] best@[a]).note_id
                                != (#[trigger] best@[b]).note_id by {
                            if a == n - 1 {
                                let b0 = if b < j { b } else { b + 1 };
                                assert(best@[b] == prev[b0]);
                                assert(prev[b0].note_id != prev[j as int].note_id);
                            } else if b == n - 1 {
                                let a0 = if a < j { a } else { a + 1 };
                                assert(best@[a] == prev[a0]);
                                assert(prev[a0].note_id != prev[j as int].note_id);
                            } else {
                                let a0 = if a < j { a } else { a + 1 };
                                let b0 = if b < j { b } else { b + 1 };
                                assert(best@[a] == prev[a0]);
                                assert(best@[b] == prev[b0]);
                            }
                        }
                    }
                }
            },
            None => {
                best.push(m);
            },
        }
        proof {
            let n = best@.len();
            // soundness: each entry is the best of the extended prefix
            assert forall|a: int| 0 <= a < n implies {
                let e = #[trigger] best@[a];
                &&& has_match_for(resolved.take(i + 1 as int), e.note_id)
                &&& e.distance == best_dist(resolved.take(i + 1 as int), e.note_id)
            } by {
                let e = best@[a];
                lemma_best_take_step(resolved, e.note_id, i as int);
                match pos {
                    Some(j) => {
                        if m.distance < prev[j as int].distance {
                            let a0 = if a < j { a } else if a < n - 1 { a + 1 } else {
                                j as int
                            };
                            if a == n - 1 {
                                assert(e == m);
                            } else {
                                assert(e == prev[a0]);
                                assert(e.note_id != prev[j as int].note_id);
                            }
                        } else {
                            assert(e == prev[a]);
                            if e.note_id == m.note_id {
                                assert(a == j);
                            }
                        }
                    },
                    None => {
                        if a < prev.len() {
                            assert(e == prev[a]);
                            if e.note_id == m.note_id {
                                assert(has_match_for(resolved.take(i as int), m.note_id));
                                let w = choose|w: int| 0 <= w < prev.len()
                                    && (#[trigger] prev[w]).note_id == m.note_id;
                                assert(false);
                            }
                        } else {
                            assert(e == m);
                            if has_match_for(resolved.take(i as int), m.note_id) {
                                let w = choose|w: int| 0 <= w < prev.len()
                                    && (#[trigger] prev[w]).note_id == m.note_id;
                                assert(false);
                            }
                        }
                    },
                }
            }
            // completeness: every note seen so far has an entry
            assert forall|id: i64| #[trigger] has_match_for(resolved.take(i + 1 as int), id)
                implies exists|a: int| 0 <= a < best@.len()
                    && (#[trigger] best@[a]).note_id == id by {
                lemma_best_take_step(resolved, id, i as int);
                if id == m.note_id {
                    match pos {
                        Some(j) => {
                            if m.distance < prev[j as int].distance {
                                assert(best@[n - 1].note_id == id);
                            } else {
                                assert(best@[j as int].note_id == id);
                            }
                        },
                        None => {
                            assert(best@[n - 1].note_id == id);
                        },
                    }
                } else {
                    let w = choose|w: int| 0 <= w < prev.len()
                        && (#[trigger] prev[w]).note_id == id;
                    match pos {
                        Some(j) => {
                            if m.distance < prev[j as int].distance {
                                assert(prev[j as int].note_id == m.note_id);
                                assert(w != j);
                                let w2 = if w < j { w } else { w - 1 };
                                assert(best@[w2] == prev[w]);
                            } else {
                                assert(best@[w] == prev[w]);
                            }
                        },
                        None => {
                            assert(best@[w] == prev[w]);
                        },
                    }
                }
            }
        }
        i += 1;
    }
    proof {
        assert(resolved.take(resolved.len() as int) =~= resolved);
    }

    // order by rising distance, note id breaking ties
    let mut sorted: Vec<SearchMatch> = Vec::new();
    let mut i: usize = 0;
    while i < best.len()
        invariant
            i <= best@.len(),
            sorted@.len() == i,
            forall|a: int, b: int| 0 <= a < b < sorted@.len()
                ==> match_lt(#[trigger] sorted@[a], #[trigger] sorted@[b]),
            forall|x: SearchMatch| #[trigger] sorted@.contains(x)
                <==> best@.take(i as int).contains(x),
        decreases best@.len() - i,
    {
        let m = best[i];
        let mut p: usize = 0;
        while p < sorted.len()
            invariant
                p <= sorted@.len(),
                forall|a: int| 0 <= a < p ==> match_lt(#[trigger] sorted@[a], m),
            decreases sorted@.len() - p,
        {
            proof {
                if !match_lt(sorted@[p as int], m) && !match_lt(m, sorted@[p as int]) {
                    // equal keys would mean one note appears twice in `best`
                    assert(sorted@.contains(sorted@[p as int]));
                    assert(best@.take(i as int).contains(sorted@[p as int]));
                    let w = choose|w: int| 0 <= w < best@.take(i as int).len()
                        && best@.take(i as int)[w] == sorted@[p as int];
                    assert(best@[w] == sorted@[p as int]);
                    assert(best@[w].note_id == best@[i as int].note_id);
                    assert(false);
                }
            }
            if lt_match(&m, &sorted[p]) {
                break;
            }
            p += 1;
        }
        let ghost prev = sorted@;
        proof {
            lemma_insert_contains(prev, p as int, m);
        }
        sorted.insert(p, m);
        proof {
            assert forall|a: int, b: int| 0 <= a < b < sorted@.len()
                implies match_lt(#[trigger] sorted@[a], #[trigger] sorted@[b]) by {
                if b < p {
                    assert(sorted@[a] == prev[a] && sorted@[b] == prev[b]);
                } else if a > p {
                    assert(sorted@[a] == prev[a - 1] && sorted@[b] == prev[b - 1]);
                } else if a == p as int {
                    assert(sorted@[a] == m && sorted@[b] == prev[b - 1]);
                    assert(match_lt(m, prev[p as int]));
                    if b - 1 > p {
                        assert(match_lt(prev[p as int], prev[b - 1]));
                    }
                } else if b == p as int {
                    assert(sorted@[a] == prev[a] && sorted@[b] == m);
                } else {
                    assert(sorted@[a] == prev[a] && sorted@[b] == prev[b - 1]);
                    if a < b - 1 {
                    } else {
                        assert(a == b - 1);
                    }
                }
            }
            assert forall|x: SearchMatch| #[trigger] sorted@.contains(x)
                implies best@.take(i + 1 as int).contains(x) by {
                if x == m {
                    assert(best@.take(i + 1 as int)[i as int] == x);
                } else {
                    assert(prev.contains(x));
                    assert(best@.take(i as int).contains(x));
                    let w = choose|w: int| 0 <= w < i && best@.take(i as int)[w] == x;
                    assert(best@.take(i + 1 as int)[w] == x);
                }
            }
            assert forall|x: SearchMatch| best@.take(i + 1 as int).contains(x)
                implies #[trigger] sorted@.contains(x) by {
                let w = choose|w: int| 0 <= w < i + 1
                    && #[trigger] best@.take(i + 1 as int)[w] == x;
                if w < i {
                    assert(best@.take(i as int)[w] == x);
                    assert(prev.contains(x));
                } else {
                    assert(x == m);
                }
            }
        }
        i += 1;
    }
    proof {
        assert(best@.take(best@.len() as int) =~= best@);
    }

    // the sorted list carries distinct note ids and best-of entries
    proof {
        assert forall|a: int| 0 <= a < sorted@.len() implies {
            let e = #[trigger] sorted@[a];
            &&& has_match_for(resolved, e.note_id)
            &&& e.distance == best_dist(resolved, e.note_id)
        } by {
            assert(sorted@.contains(sorted@[a]));
            assert(best@.contains(sorted@[a]));
            let w = choose|w: int| 0 <= w < best@.len() && best@[w] == sorted@[a];
            lemma_best_props(resolved, best@[w].note_id);
        }
    }

    // keep the k closest
    let ghost full = sorted@;
    sorted.truncate(k);
    proof {
        let post = sorted@;
        assert forall|id: i64| #[trigger] has_match_for(resolved, id)
            implies ((exists|i2: int| 0 <= i2 < post.len()
                    && (#[trigger] post[i2]).note_id == id)
                || (post.len() == k && (k == 0 || match_lt(post[k - 1], SearchMatch {
                    note_id: id,
                    distance: best_dist(resolved, id) as i64,
                })))) by {
            let a = choose|a: int| 0 <= a < best@.len()
                && (#[trigger] best@[a]).note_id == id;
            assert(best@.contains(best@[a]));
            assert(full.contains(best@[a]));
            let w = choose|w: int| 0 <= w < full.len() && full[w] == best@[a];
            if w < post.len() {
                assert(post[w] == full[w]);
                assert(post[w].note_id == id);
            } else {
                assert(post.len() == k);
                if k > 0 {
                    assert(match_lt(full[k - 1], full[w]));
                    assert(post[k - 1] == full[k - 1]);
                    assert(full[w].note_id == id);
                    assert(full[w].distance == best_dist(resolved, id));
                }
            }
        }
        assert forall|i2: int, j2: int| 0 <= i2 < post.len() && 0 <= j2 < post.len()
            && i2 != j2
            implies (#[trigger] post[i2]).note_id != (#[trigger] post[j2]).note_id by {
            if i2 < j2 {
                assert(match_lt(post[i2], post[j2]));
            } else {
                assert(match_lt(post[j2], post[i2]));
            }
        }
    }
    sorted
}

} // verus!
