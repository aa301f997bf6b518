//! The logic of an interactive 3D modeler: scene editing, mesh surgery,
//! modifier stacks, tool state machines, material libraries and the
//! simulation bookkeeping behind them, each stated as a contract and proved.
//!
//! Lengths, angles and positions are single-precision numbers. The library
//! carries them as bit patterns (see [`scalar`]) and decides with them by
//! their order; arithmetic on them is left to the caller, which hands the
//! results back in.

pub mod pbr_catalog;
pub mod pbr_import;
pub mod pbr_library;
pub mod pdf;
pub mod preview;
pub mod ref_setup;
pub mod render_preview;
pub mod ref_image;
pub mod seqs;
pub mod text;
pub mod terrain_sculpt;
pub mod texture_bridge;
pub mod topology;
pub mod mesh_data;
pub mod edge_ring;
pub mod scalar;
pub mod scene;
pub mod selection;
pub mod theme;
pub mod settings;
pub mod pie;
pub mod net;
pub mod mesh_edit;
pub mod bevel;
pub mod bricks;
pub mod floors;
pub mod object_ops;
pub mod subdivision;
pub mod fingerprint;
pub mod images;
pub mod json;
pub mod modal;
pub mod modal_apply;
pub mod modifiers;
pub mod modifier_ops;
pub mod shading;
pub mod slot_looks;
pub mod slot_ranges;
pub mod scene_render;
pub mod scene_render_laws;
pub mod overlay;
pub mod physics;
pub mod physics_laws;
pub mod physics_queries;
pub mod poke;
pub mod roof_tool;
pub mod rope_handles;
pub mod soft_bodies;
pub mod wireframe;
