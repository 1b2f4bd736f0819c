use semnotes::{
    compute_centroid, make_chunk_input, note_content_to_chunks, parse_vector_json,
    resolve_reply, split_markdown_content, Candidate, CentroidError, ChunkInput,
    EncoderBridge, EngineError, NoteStore, ReplyEvent, SearchParams, SubmitOutcome, WordStore,
};

fn chunk(text: &str, embedding: Vec<i64>) -> ChunkInput {
    make_chunk_input(text.to_string(), embedding)
}

#[test]
fn centroid_of_two_unit_vectors_is_their_mean() {
    // at a fixed-point scale of 1_000_000, [[1,0],[0,1]] averages to [0.5,0.5]
    let vectors = vec![vec![1_000_000i64, 0], vec![0i64, 1_000_000]];
    let r = compute_centroid(&vectors).unwrap();
    assert_eq!(r, vec![500_000i64, 500_000]);
}

#[test]
fn centroid_of_empty_family_is_no_result() {
    let vectors: Vec<Vec<i64>> = vec![];
    assert_eq!(compute_centroid(&vectors), Err(CentroidError::EmptyInput));
}

#[test]
fn centroid_of_mismatched_dimensions_is_rejected() {
    let vectors = vec![vec![1i64, 2], vec![3i64]];
    assert_eq!(compute_centroid(&vectors), Err(CentroidError::DimensionMismatch));
}

#[test]
fn centroid_truncates_toward_zero() {
    let vectors = vec![vec![-3i64], vec![0i64]];
    // -3 / 2 truncated toward zero is -1
    assert_eq!(compute_centroid(&vectors).unwrap(), vec![-1i64]);
    let vectors = vec![vec![3i64], vec![0i64]];
    assert_eq!(compute_centroid(&vectors).unwrap(), vec![1i64]);
}

#[test]
fn ingest_single_chunk_note() {
    let mut s = NoteStore::new(2);
    let id = s
        .create_note("hello".to_string(), vec![chunk("hello", vec![7, -9])], 100)
        .unwrap();
    assert_eq!(id, 1);
    // exactly one chunk row and one paired index row
    assert_eq!(s.chunks.len(), 1);
    assert_eq!(s.chunk_index.len(), 1);
    assert_eq!(s.chunks[0].note_id, id);
    assert_eq!(s.chunks[0].text, "hello");
    assert_eq!(s.chunks[0].id, s.chunk_index[0].id);
    assert_eq!(s.chunks[0].embedding, s.chunk_index[0].embedding);
    // the centroid of one chunk is that chunk's vector
    assert_eq!(s.notes[0].centroid, vec![7, -9]);
    assert_eq!(s.notes[0].created_at, 100);
    assert_eq!(s.notes[0].updated_at, 100);
}

#[test]
fn ingest_rejects_wrong_dimension() {
    let mut s = NoteStore::new(2);
    let r = s.create_note("x".to_string(), vec![chunk("x", vec![1, 2, 3])], 0);
    assert_eq!(r, Err(EngineError::DimensionMismatch));
    assert_eq!(s.notes.len(), 0);
    assert_eq!(s.chunks.len(), 0);
    assert_eq!(s.chunk_index.len(), 0);
}

#[test]
fn update_replaces_chunk_set() {
    let mut s = NoteStore::new(1);
    let id = s
        .create_note(
            "one two".to_string(),
            vec![chunk("one", vec![10]), chunk("two", vec![20])],
            5,
        )
        .unwrap();
    let old_ids: Vec<i64> = s.chunks.iter().map(|c| c.id).collect();
    assert_eq!(old_ids.len(), 2);

    s.update_note(id, "three".to_string(), vec![chunk("three", vec![30])], 9)
        .unwrap();

    // old chunk ids are gone from both tables
    for old in &old_ids {
        assert!(s.chunks.iter().all(|c| c.id != *old));
        assert!(s.chunk_index.iter().all(|x| x.id != *old));
    }
    // exactly the new chunk set remains for the note
    let owned: Vec<&str> = s
        .chunks
        .iter()
        .filter(|c| c.note_id == id)
        .map(|c| c.text.as_str())
        .collect();
    assert_eq!(owned, vec!["three"]);
    assert_eq!(s.notes[0].content, "three");
    assert_eq!(s.notes[0].centroid, vec![30]);
    assert_eq!(s.notes[0].created_at, 5);
    assert_eq!(s.notes[0].updated_at, 9);
}

#[test]
fn update_missing_note_is_not_found() {
    let mut s = NoteStore::new(1);
    let r = s.update_note(42, "x".to_string(), vec![chunk("x", vec![1])], 0);
    assert_eq!(r, Err(EngineError::NotFound));
}

#[test]
fn delete_leaves_zero_rows() {
    let mut s = NoteStore::new(1);
    let keep = s
        .create_note("keep".to_string(), vec![chunk("keep", vec![1])], 1)
        .unwrap();
    let gone = s
        .create_note("gone".to_string(), vec![chunk("a", vec![2]), chunk("b", vec![4])], 2)
        .unwrap();
    s.create_tag("todo".to_string(), gone).unwrap();
    let doomed_ids: Vec<i64> = s
        .chunks
        .iter()
        .filter(|c| c.note_id == gone)
        .map(|c| c.id)
        .collect();

    s.delete_note(gone).unwrap();

    assert!(s.notes.iter().all(|n| n.id != gone));
    assert!(s.chunks.iter().all(|c| c.note_id != gone));
    for d in &doomed_ids {
        assert!(s.chunks.iter().all(|c| c.id != *d));
        assert!(s.chunk_index.iter().all(|x| x.id != *d));
    }
    assert!(s.note_tags.iter().all(|l| l.note_id != gone));
    // the other note is untouched
    assert_eq!(s.notes.len(), 1);
    assert_eq!(s.notes[0].id, keep);
    assert_eq!(s.chunks.len(), 1);
    assert_eq!(s.chunk_index.len(), 1);
}

#[test]
fn delete_missing_note_is_not_found() {
    let mut s = NoteStore::new(1);
    assert_eq!(s.delete_note(7), Err(EngineError::NotFound));
}

#[test]
fn two_ingests_do_not_cross_contaminate() {
    let mut s = NoteStore::new(1);
    let a = s
        .create_note("aaa".to_string(), vec![chunk("a1", vec![1]), chunk("a2", vec![3])], 1)
        .unwrap();
    let b = s
        .create_note("bbb".to_string(), vec![chunk("b1", vec![5])], 2)
        .unwrap();
    assert_ne!(a, b);
    let a_chunks: Vec<&str> = s
        .chunks
        .iter()
        .filter(|c| c.note_id == a)
        .map(|c| c.text.as_str())
        .collect();
    assert_eq!(a_chunks, vec!["a1", "a2"]);
    let b_chunks: Vec<&str> = s
        .chunks
        .iter()
        .filter(|c| c.note_id == b)
        .map(|c| c.text.as_str())
        .collect();
    assert_eq!(b_chunks, vec!["b1"]);
}

#[test]
fn planner_ranks_dedups_and_limits() {
    let mut s = NoteStore::new(1);
    let a = s
        .create_note("na".to_string(), vec![chunk("a1", vec![1]), chunk("a2", vec![2])], 1)
        .unwrap();
    let b = s
        .create_note("nb".to_string(), vec![chunk("b1", vec![3])], 2)
        .unwrap();
    let c = s
        .create_note("nc".to_string(), vec![chunk("c1", vec![4])], 3)
        .unwrap();
    let cid = |note: i64, text: &str| -> i64 {
        s.chunks
            .iter()
            .find(|ch| ch.note_id == note && ch.text == text)
            .unwrap()
            .id
    };
    let candidates = vec![
        Candidate { chunk_id: cid(a, "a1"), distance: 300 },
        Candidate { chunk_id: cid(a, "a2"), distance: 100 },
        Candidate { chunk_id: cid(b, "b1"), distance: 200 },
        Candidate { chunk_id: cid(c, "c1"), distance: 900 },
        Candidate { chunk_id: 9999, distance: 50 },
    ];
    // bound 800 drops note c's candidate; the unknown chunk id resolves to
    // nothing; note a keeps its closest match (100)
    let r = s.plan_similarity(&candidates, 10, 800);
    assert_eq!(r.len(), 2);
    assert_eq!(r[0].note_id, a);
    assert_eq!(r[0].distance, 100);
    assert_eq!(r[1].note_id, b);
    assert_eq!(r[1].distance, 200);
    // k limits the result count, keeping the closest
    let r = s.plan_similarity(&candidates, 1, 800);
    assert_eq!(r.len(), 1);
    assert_eq!(r[0].note_id, a);
    // every returned id resolves to an existing note
    for m in &r {
        assert!(s.notes.iter().any(|n| n.id == m.note_id));
    }
}

#[test]
fn bridge_backpressure_blocks_when_full_and_frees_after_take() {
    let mut b = EncoderBridge::new(2);
    let t0 = match b.submit(vec!["a".to_string()]).unwrap() {
        SubmitOutcome::Enqueued(t) => t,
        SubmitOutcome::MustWait => panic!("queue unexpectedly full"),
    };
    let t1 = match b.submit(vec!["b".to_string()]).unwrap() {
        SubmitOutcome::Enqueued(t) => t,
        SubmitOutcome::MustWait => panic!("queue unexpectedly full"),
    };
    assert!(t0 < t1);
    // the third submitter must wait: nothing is dropped
    match b.submit(vec!["c".to_string()]).unwrap() {
        SubmitOutcome::MustWait => {}
        SubmitOutcome::Enqueued(_) => panic!("bound not enforced"),
    }
    assert_eq!(b.queue.len(), 2);
    // FIFO: the worker takes the oldest request, freeing one slot
    let served = b.take_next().unwrap();
    assert_eq!(served.ticket, t0);
    assert_eq!(served.texts, vec!["a".to_string()]);
    match b.submit(vec!["c".to_string()]).unwrap() {
        SubmitOutcome::Enqueued(t) => assert!(t > t1),
        SubmitOutcome::MustWait => panic!("slot did not free"),
    }
}

#[test]
fn bridge_reports_dead_worker() {
    let mut b = EncoderBridge::new(2);
    b.worker_failed();
    match b.submit(vec!["a".to_string()]) {
        Err(EngineError::WorkerUnavailable) => {}
        _ => panic!("dead worker not reported"),
    }
}

#[test]
fn encode_reply_keeps_cardinality_and_dimension() {
    // a well-shaped reply passes through unchanged, in order
    let raw = vec![vec![1i64, 2], vec![3i64, 4], vec![5i64, 6]];
    let r = resolve_reply(3, 2, ReplyEvent::Reply(raw.clone())).unwrap();
    assert_eq!(r, raw);
    // a count mismatch yields no partial results
    assert_eq!(
        resolve_reply(2, 2, ReplyEvent::Reply(vec![vec![1i64, 2]])),
        Err(EngineError::EncodingFailure)
    );
    // a dimension mismatch yields no partial results
    assert_eq!(
        resolve_reply(1, 2, ReplyEvent::Reply(vec![vec![1i64, 2, 3]])),
        Err(EngineError::EncodingFailure)
    );
    // a closed channel means the worker is gone
    assert_eq!(
        resolve_reply(1, 2, ReplyEvent::ChannelClosed),
        Err(EngineError::WorkerUnavailable)
    );
    // an elapsed wait is a timeout
    assert_eq!(
        resolve_reply(1, 2, ReplyEvent::TimedOut),
        Err(EngineError::Timeout)
    );
}

#[test]
fn chunk_pairing_requires_one_vector_per_segment() {
    let r = note_content_to_chunks(
        vec!["a".to_string(), "b".to_string()],
        vec![vec![1i64]],
    );
    assert!(matches!(r, Err(EngineError::EncodingFailure)));
    let r = note_content_to_chunks(
        vec!["a".to_string(), "b".to_string()],
        vec![vec![1i64], vec![2i64]],
    )
    .unwrap();
    assert_eq!(r.len(), 2);
    assert_eq!(r[0].text, "a");
    assert_eq!(r[0].embedding, vec![1i64]);
    assert_eq!(r[1].text, "b");
    assert_eq!(r[1].embedding, vec![2i64]);
}

#[test]
fn stored_vector_json_round_trips() {
    let c = make_chunk_input("t".to_string(), vec![-5i64, 0, 981234]);
    // the serialized form recovers exactly the components
    assert_eq!(
        parse_vector_json(&c.embedding_json, 3),
        Ok(vec![-5i64, 0, 981234])
    );
    // a dimension disagreement is rejected
    assert_eq!(
        parse_vector_json(&c.embedding_json, 2),
        Err(EngineError::DimensionMismatch)
    );
    // corrupt storage is a storage failure
    assert_eq!(
        parse_vector_json("not json", 3),
        Err(EngineError::StorageFailure)
    );
}

#[test]
fn splitter_empty_input_yields_no_segments() {
    let r = split_markdown_content("", 256);
    assert!(r.is_empty());
}

#[test]
fn splitter_keeps_small_input_whole() {
    let r = split_markdown_content("short note", 256);
    assert_eq!(r, vec!["short note".to_string()]);
}

#[test]
fn splitter_is_lossless_and_bounded() {
    let text = "First sentence. Second sentence!\nA new line without punctuation \
                and some more words to push past the limit? Yes.";
    let max = 30;
    let segs = split_markdown_content(text, max);
    let joined: String = segs.concat();
    assert_eq!(joined, text);
    for s in &segs {
        let n = s.chars().count();
        assert!(n >= 1 && n <= max);
    }
    // every segment except the last ends at a break or was cut at the bound
    for s in &segs[..segs.len() - 1] {
        let last = s.chars().last().unwrap();
        assert!(
            last == '\n' || last == '.' || last == '!' || last == '?'
                || s.chars().count() == max
        );
    }
}

#[test]
fn splitter_prefers_sentence_boundaries() {
    let segs = split_markdown_content("One. Two. Three.", 10);
    // cut after the last break character within reach, not mid-word
    assert_eq!(segs[0], "One. Two.");
}

#[test]
fn get_note_returns_row_and_tags() {
    let mut s = NoteStore::new(1);
    let id = s
        .create_note("note".to_string(), vec![chunk("note", vec![11])], 3)
        .unwrap();
    s.create_tag("red".to_string(), id).unwrap();
    s.create_tag("blue".to_string(), id).unwrap();
    let n = s.get_note(id).unwrap();
    assert_eq!(n.id, id);
    assert_eq!(n.content, "note");
    assert_eq!(n.average_sentence_embedding, vec![11]);
    assert_eq!(n.created_at, 3);
    let tag_names: Vec<&str> = n.tags.iter().map(|t| t.id.as_str()).collect();
    assert_eq!(tag_names, vec!["red", "blue"]);
    assert!(matches!(s.get_note(999), Err(EngineError::NotFound)));
}

#[test]
fn tags_attach_detach_and_cascade() {
    let mut s = NoteStore::new(1);
    let id = s
        .create_note("n".to_string(), vec![chunk("n", vec![1])], 0)
        .unwrap();
    s.create_tag("work".to_string(), id).unwrap();
    // attaching twice stays idempotent
    s.create_tag("work".to_string(), id).unwrap();
    assert_eq!(s.tags.len(), 1);
    assert_eq!(s.note_tags.len(), 1);
    // attaching to a missing note fails
    assert_eq!(
        s.create_tag("x".to_string(), 999),
        Err(EngineError::NotFound)
    );
    // detaching one link
    s.create_tag("play".to_string(), id).unwrap();
    s.delete_note_tag(id, &"work".to_string()).unwrap();
    assert_eq!(s.note_tags.len(), 1);
    assert_eq!(s.note_tags[0].tag_id, "play");
    assert_eq!(
        s.delete_note_tag(id, &"work".to_string()),
        Err(EngineError::NotFound)
    );
    // deleting a tag removes its links too
    s.delete_tag(&"play".to_string()).unwrap();
    assert!(s.tags.iter().all(|t| t.id != "play"));
    assert!(s.note_tags.is_empty());
    assert_eq!(s.delete_tag(&"play".to_string()), Err(EngineError::NotFound));
}

fn three_note_store() -> (NoteStore, i64, i64, i64) {
    let mut s = NoteStore::new(1);
    let a = s
        .create_note("na".to_string(), vec![chunk("a", vec![1])], 10)
        .unwrap();
    let b = s
        .create_note("nb".to_string(), vec![chunk("b", vec![2])], 30)
        .unwrap();
    let c = s
        .create_note("nc".to_string(), vec![chunk("c", vec![3])], 20)
        .unwrap();
    s.create_tag("red".to_string(), a).unwrap();
    s.create_tag("red".to_string(), b).unwrap();
    s.create_tag("blue".to_string(), b).unwrap();
    s.create_tag("blue".to_string(), c).unwrap();
    (s, a, b, c)
}

#[test]
fn get_notes_lists_most_recent_first() {
    let (s, a, b, c) = three_note_store();
    let r = s.get_notes(SearchParams {
        tag_ids: vec![],
        match_all: false,
        take: None,
        skip: None,
    });
    let ids: Vec<i64> = r.iter().map(|n| n.id).collect();
    assert_eq!(ids, vec![b, c, a]);
}

#[test]
fn get_notes_filters_by_any_tag() {
    let (s, a, b, _c) = three_note_store();
    let r = s.get_notes(SearchParams {
        tag_ids: vec!["red".to_string()],
        match_all: false,
        take: None,
        skip: None,
    });
    let ids: Vec<i64> = r.iter().map(|n| n.id).collect();
    assert_eq!(ids, vec![b, a]);
}

#[test]
fn get_notes_filters_by_all_tags() {
    let (s, _a, b, _c) = three_note_store();
    let r = s.get_notes(SearchParams {
        tag_ids: vec!["red".to_string(), "blue".to_string()],
        match_all: true,
        take: None,
        skip: None,
    });
    let ids: Vec<i64> = r.iter().map(|n| n.id).collect();
    assert_eq!(ids, vec![b]);
}

#[test]
fn get_notes_applies_offset_and_limit() {
    let (s, a, _b, c) = three_note_store();
    let r = s.get_notes(SearchParams {
        tag_ids: vec![],
        match_all: false,
        take: Some(1),
        skip: Some(1),
    });
    let ids: Vec<i64> = r.iter().map(|n| n.id).collect();
    assert_eq!(ids, vec![c]);
    let r = s.get_notes(SearchParams {
        tag_ids: vec![],
        match_all: false,
        take: Some(5),
        skip: Some(2),
    });
    let ids: Vec<i64> = r.iter().map(|n| n.id).collect();
    assert_eq!(ids, vec![a]);
}

#[test]
fn get_tags_lists_and_pages() {
    let (s, _a, b, _c) = three_note_store();
    let all = s.get_tags(None, None, None);
    let names: Vec<&str> = all.iter().map(|t| t.id.as_str()).collect();
    assert_eq!(names, vec!["red", "blue"]);
    let of_b = s.get_tags(Some(b), None, None);
    let names: Vec<&str> = of_b.iter().map(|t| t.id.as_str()).collect();
    assert_eq!(names, vec!["red", "blue"]);
    let paged = s.get_tags(None, Some(1), Some(1));
    let names: Vec<&str> = paged.iter().map(|t| t.id.as_str()).collect();
    assert_eq!(names, vec!["blue"]);
}

#[test]
fn word_store_pairs_rows_and_ranks_matches() {
    let mut w = WordStore::new(2);
    let cat = w.insert_word("cat".to_string(), vec![1, 0]).unwrap();
    let dog = w.insert_word("dog".to_string(), vec![0, 1]).unwrap();
    let eel = w.insert_word("eel".to_string(), vec![1, 1]).unwrap();
    assert_eq!(w.words.len(), 3);
    assert_eq!(w.word_index.len(), 3);
    for i in 0..3 {
        assert_eq!(w.words[i].id, w.word_index[i].id);
        assert_eq!(w.words[i].embedding, w.word_index[i].embedding);
    }
    assert_eq!(
        w.insert_word("bad".to_string(), vec![1]),
        Err(EngineError::DimensionMismatch)
    );

    let candidates = vec![
        Candidate { chunk_id: cat, distance: 400 },
        Candidate { chunk_id: dog, distance: 100 },
        Candidate { chunk_id: eel, distance: 900 },
    ];
    let r = w.find_similar_words(&candidates, 10, 800);
    let texts: Vec<&str> = r.iter().map(|x| x.text.as_str()).collect();
    assert_eq!(texts, vec!["dog", "cat"]);
    let r = w.find_similar_words(&candidates, 1, 800);
    let texts: Vec<&str> = r.iter().map(|x| x.text.as_str()).collect();
    assert_eq!(texts, vec!["dog"]);
}
