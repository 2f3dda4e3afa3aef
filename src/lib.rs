pub mod drainage;
pub mod erosion;
pub mod flow;
pub mod mesh;
pub mod pixels;
pub mod raster;
