//! Verified build-time logic of the Rex bundler: source scanning, server
//! action extraction, CSS module scoping, Tailwind candidate scanning,
//! font CSS generation, RSC reference ids and module graph queries.

pub mod text;
pub mod string_set;
pub mod paths;
pub mod scan;
pub mod ids;
pub mod tailwind_scan;
pub mod css_modules;
pub mod font_google;
pub mod rsc_stubs;
pub mod client_manifest;
pub mod server_action_manifest;
pub mod use_client_detect;
pub mod esm_transform;
pub mod precomputed_ids;
pub mod client_dep_bundle;
pub mod css_collect;
pub mod rsc_build_config;
pub mod rsc_graph;
pub mod transform;
pub mod static_asset;
pub mod server_bundle;
pub mod client_bundle;
pub mod tailwind;
pub mod manifest;
pub mod page_exports;
pub mod dce;
pub mod server_dep_bundle;
pub mod build_utils;
pub mod entries;
pub mod server_action_extract;
pub mod json;
pub mod rsc_entries;
pub mod rsc_server_bundle;
pub mod rsc_client_bundle;
pub mod rsc_bundler;
pub mod esm_utils;
