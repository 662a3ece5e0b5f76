//! Compressed posting lists for an inverted index: block codecs with a
//! two-level skip directory, compressed bitmaps, bit-packed block formats and
//! sparse-vector postings.
pub mod batch;
pub mod bits;
pub mod block;
pub mod block_codec;
pub mod block_source;
pub mod bound_laws;
pub mod bounds;
pub mod bp128;
pub mod bp128_list;
pub mod bp128_store;
pub mod built_laws;
pub mod bytes;
pub mod choice_laws;
pub mod codec;
pub mod compact_laws;
pub mod container;
pub mod container_ops;
pub mod container_store;
pub mod cursor;
pub mod deferred;
pub mod dimension_laws;
pub mod dimensions;
pub mod encode;
pub mod envelope;
pub mod envelope_laws;
pub mod error;
pub mod footer;
pub mod format;
pub mod format_laws;
pub mod gaps;
pub mod impact_builder;
pub mod impacts;
pub mod intersect;
pub mod intersect_laws;
pub mod iterator;
pub mod layout_laws;
pub mod list;
pub mod list_build;
pub mod list_laws;
pub mod list_merge;
pub mod list_query;
pub mod list_read;
pub mod list_write;
pub mod merge;
pub mod merge_bound_laws;
pub mod merge_bytes_laws;
pub mod merge_laws;
pub mod name_laws;
pub mod pack;
pub mod partition_laws;
pub mod partitioner;
pub mod position_laws;
pub mod posting;
pub mod query_iterator;
pub mod query_laws;
pub mod query_list;
pub mod range_max;
pub mod ratio;
pub mod restore_laws;
pub mod roaring;
pub mod roaring_laws;
pub mod roaring_list;
pub mod roaring_list_store;
pub mod roaring_store;
pub mod score_laws;
pub mod skip;
pub mod source_laws;
pub mod sparse_block;
pub mod sparse_config;
pub mod sparse_iterator;
pub mod sparse_laws;
pub mod sparse_list;
pub mod sparse_postings;
pub mod sparse_remap;
pub mod sparse_scores;
pub mod sparse_skip;
pub mod sparse_store;
pub mod sparse_vector;
pub mod sparse_walk_laws;
pub mod sparse_weights;
pub mod stream_writer;
pub mod vector_laws;
pub mod vint;
pub mod visit;
pub mod walk_laws;
pub mod width_laws;
pub mod writer_laws;
