pub mod aabb;
pub mod bands;
pub mod bvh;
pub mod framebuffer;
pub mod perlin;
pub mod random;
pub mod ray;
