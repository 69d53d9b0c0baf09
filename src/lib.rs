pub mod accel;
pub mod integrator;
pub mod material;
pub mod noise;
pub mod texture;
pub mod transform;

pub use accel::BVH;
pub use material::DiffuseLight;
pub use noise::Perlin;
pub use texture::ImageTexture;
pub use transform::{Axis, FlipNormal};
