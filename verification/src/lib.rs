pub mod coordinate;
pub mod grid;
pub mod slice;
pub mod area;
pub mod slab;
pub mod chunk;
pub mod loader;
pub mod range;
pub mod occlusion;
pub mod viewer;
pub mod world_ref;
pub mod navigationv2;
pub mod mesh;
pub mod world;
pub mod navigation;
