pub mod maths;
pub mod rng;
pub mod sampler;
pub mod bxdf;
pub mod matrix;
pub mod vector;
pub mod render_target;
pub mod utils;
pub mod integrator;
pub mod texture;
pub mod bounds;
pub mod bvh;
pub mod material;
pub mod mesh;
