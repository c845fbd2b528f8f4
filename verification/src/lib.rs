//! A static full-text search index: documents are split into sections at
//! heading boundaries, each section's tokens go into a compact
//! approximate-membership filter, the whole index round-trips through a
//! byte codec, and a query engine ranks sections against a query string.
//!
//! The build side walks a corpus once and emits one serializable artifact;
//! the query side loads that artifact into read-only state and answers
//! `search` calls against it.

mod codec;
mod events;
mod extract;
mod filter;
mod index;
mod locator;
mod query;
mod text;

pub use codec::decode_index;
pub use codec::encode_index;
pub use codec::entries_wf;
pub use codec::lemma_codec_round_trip;
pub use codec::CorruptIndexError;
pub use events::clean_html;
pub use events::document_events;
pub use events::MdEvent;
pub use extract::document_sections;
pub use extract::extract_sections;
pub use extract::html_anchor_base;
pub use extract::Document;
pub use extract::Section;
pub use filter::buckets_for;
pub use filter::dedup_first;
pub use filter::filter_capacity;
pub use filter::filter_size;
pub use filter::spec_next_pow2;
pub use filter::Filter;
pub use filter::IndexBuildError;
pub use index::EntryV;
pub use index::Index;
pub use locator::Locator;
pub use query::is_ranking;
pub use query::lemma_ranking_unique;
pub use query::lemma_search_prefix;
pub use query::lemma_zero_match;
pub use query::split_ws;
pub use query::term_seq;
pub use text::id_from_content;
pub use text::lowercase;
pub use text::tidy;
