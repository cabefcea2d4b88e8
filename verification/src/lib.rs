//! Core logic of the CC Switch desktop companion: session-level model routing,
//! usage caches, MCP live-config conversion, DSH patch-file rendering, API log
//! compaction and the related decision helpers.
use vstd::prelude::*;

pub mod text;
pub mod route_prefix;
pub mod assoc;
pub mod app_config;
pub mod usage_cache;
pub mod usage_refresher;
pub mod webdav_auto_sync;
pub mod paths;
pub mod json;
pub mod route_apply;
pub mod api_log;
pub mod yaml;
pub mod dsh_patch;
pub mod mcp_live;
pub mod responses_chat;
pub mod zcode_sessions;
pub mod floating_ball;
pub mod sse;

verus! {

} // verus!
