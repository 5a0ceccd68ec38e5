//! Verified core logic of the Legion engine: resource identification, mp4
//! sample tables, shader resource merging, GPU buffer views, source-control
//! change detection and the decision logic of several engine services.

pub mod api_codegen;
pub mod asset_registry;
pub mod async_spans;
pub mod buffer_view;
pub mod build_device;
pub mod data_codegen;
pub mod diff;
pub mod encoding;
pub mod event_sink;
pub mod graph;
pub mod hierarchy;
pub mod instance_table;
pub mod mp4;
pub mod multitext_resource;
pub mod pipeline_states;
pub mod resource_type;
pub mod shader_resources;
pub mod source_control;
pub mod static_buffer;
pub mod telemetry_sink;
pub mod text;
pub mod transaction;
pub mod type_reflection;
pub mod yuv;
