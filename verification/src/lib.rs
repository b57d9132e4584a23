pub mod bsdf_lobe_type;
pub mod bvh;
pub mod lobes;
pub mod mesh;
pub mod render;
