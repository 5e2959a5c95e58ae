//! A retained-mode render scene, hook scheduler and text-offset toolkit for a
//! declarative GUI runtime.

pub mod assoc;
pub mod compile;
pub mod compiler;
pub mod dirty;
pub mod graph;
pub mod hooks;
pub mod host_work;
pub mod lanes;
pub mod node_store;
pub mod plan;
pub mod properties;
pub mod scaffold;
pub mod scene;
pub mod scene_spec;
pub mod state;
pub mod text;
pub mod wrappers;
pub mod writer;
