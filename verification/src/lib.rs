//! Verified core of a semantic note search engine.
//!
//! Notes are split into bounded segments, each segment is embedded as a
//! fixed-dimension vector by a serialized worker, a note's centroid is the
//! elementwise mean of its chunk vectors, notes and chunks live in a
//! relational table paired row for row with a vector-index table, and
//! similarity queries rank nearest-neighbor candidates joined back to their
//! owning rows. Vector components and distances are fixed-point integers in a
//! scale chosen by the caller; all arithmetic here is exact.
//!
//! The runtime around this crate performs the I/O — the blocking model call,
//! the channels, the storage file — and replays each store transition inside
//! one transaction; every decision is made here, under contract.

mod bridge;
mod chunker;
mod errors;
mod jsoncodec;
mod laws;
mod planner;
mod queries;
mod store;
mod vectors;
mod words;

pub use bridge::{
    law_backpressure, law_fifo_order, resolve_reply, EncodeRequest, EncoderBridge, ReplyEvent,
    SubmitOutcome,
};
pub use chunker::{
    concat_segments, is_break_char, seg_views, split_markdown_content, valid_segmentation,
};
pub use errors::EngineError;
pub use jsoncodec::parse_vector_json;
pub use laws::{law_delete_leaves_no_rows, law_ingest_isolation, law_update_replaces_chunk_set};
pub use planner::{best_dist, has_match_for, match_lt, resolved_matches, Candidate};
pub use queries::{
    keep_links_of_tag, links_for, matches_params, note_from_row, note_key_gt, page_hi, page_lo,
    window_vec, SearchParams,
};
pub use store::{
    chunk_input_wf, create_note_post, delete_note_post, embeddings_of, keep_chunks,
    keep_links, make_chunk_input, note_content_to_chunks, update_note_post, ChunkInput, ChunkRow,
    IndexRow,
    Note, NoteRow, NoteStore, NoteTagLink, SearchMatch, Tag,
};
pub use vectors::{all_dims, centroid_val, col_sum, compute_centroid, div_trunc, CentroidError};
pub use words::{resolved_word_matches, Word, WordRow, WordStore};
