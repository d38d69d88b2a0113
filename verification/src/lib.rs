//! Verified decision logic of the Bifrost smart-home hub's HTTP API: display
//! schedules, colour and version parsing, composite media routing, name
//! resolution, light-state merging, automation gates, and the small
//! validators the handlers run before touching storage.

pub mod kiosks;
pub mod text;
pub mod palette_scenes;
pub mod kiosk_update;
pub mod ai_endpoints;
pub mod routing;
pub mod media;
pub mod media_list;
pub mod audio;
pub mod mcp;
pub mod lights;
pub mod automations;
pub mod events;
pub mod plans;
pub mod groups;
pub mod palettes;
pub mod power;
pub mod apikeys;
pub mod enrollment;
pub mod auth;
pub mod dedup;
pub mod dashboards;
pub mod feeds;
pub mod generic;
pub mod dev;
pub mod ids;
