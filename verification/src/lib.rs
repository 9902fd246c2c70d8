//! Verified core of a graph projection engine.

pub mod active_bits;
pub mod artifact_law;
pub mod bitmap;
pub mod build_law;
pub mod build_pipeline;
pub mod build_pipeline_law;
pub mod codec;
pub mod codec_law;
pub mod components;
pub mod components_law;
pub mod cost_heap;
pub mod direct_edges;
pub mod direct_filters;
pub mod direct_nodes;
pub mod direct_sections;
pub mod edge_change_law;
pub mod edge_labels;
pub mod edge_scan_law;
pub mod edge_store;
pub mod edge_store_law;
pub mod engine;
pub mod engine_analytics;
pub mod engine_law;
pub mod engine_nodes;
pub mod engine_projection;
pub mod engine_paths;
pub mod engine_status;
pub mod engine_traversal;
pub mod errors;
pub mod filter_catalog;
pub mod filter_check_law;
pub mod filter_column;
pub mod filter_dictionary;
pub mod filter_encode;
pub mod filter_image;
pub mod filter_index;
pub mod filter_index_law;
pub mod filter_law;
pub mod filter_storage;
pub mod filter_value;
pub mod graph_policy;
pub mod layered;
pub mod limits;
pub mod mapped_bytes;
pub mod meeting;
pub mod membership;
pub mod neighbors;
pub mod node_lookup;
pub mod node_set;
pub mod node_store;
pub mod overlay;
pub mod paged_law;
pub mod parts;
pub mod path_finder;
pub mod path_law;
pub mod path_machine;
pub mod path_protocol;
pub mod path_world;
pub mod persisted_build;
pub mod prepared_artifact;
pub mod relaxation;
pub mod resolution;
pub mod resource;
pub mod resource_law;
pub mod projection_install;
pub mod projection_law;
pub mod projection_segments;
pub mod query_law;
pub mod raw_edges;
pub mod resumable_bfs;
pub mod resumable_dijkstra;
pub mod resumable_meeting;
pub mod rooms;
pub mod run_records;
pub mod scan_codec;
pub mod scan_edges;
pub mod scan_law;
pub mod scan_rows;
pub mod scan_sources;
pub mod scan_sql;
pub mod search;
pub mod segment_law;
pub mod source_scan_law;
pub mod sql_law;
pub mod status_law;
pub mod text;
pub mod text_dictionary;
pub mod text_law;
pub mod traversal;
pub mod traversal_law;
pub mod types;
pub mod visibility;
pub mod visibility_law;
pub mod weighted_page;
pub mod weighted_path;
