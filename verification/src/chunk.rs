pub mod slice_navmesh;
pub mod affected_neighbours;
pub mod vertical_space;
pub mod slab;
pub mod pair_walking;
pub mod chunk;
pub mod terrain;
