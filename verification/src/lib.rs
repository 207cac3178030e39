//! shame-gui core: the verified data structures and algorithms behind a
//! GPU 2D GUI framework — the DAG scheduler, the state arena, buffer and
//! instance-slice allocation, draw batching, frame capture, WGSL member
//! layout, and the editors' keyboard handling.

pub mod arena;
pub mod buffer_pool;
pub mod canvas;
pub mod capture;
pub mod editing;
pub mod graph;
pub mod gui;
pub mod instance;
pub mod material;
pub mod math;
pub mod shader;
pub mod viewport;
