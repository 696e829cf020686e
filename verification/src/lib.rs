//! Finding, describing and cutting out the objects of a flatbed scan.

pub mod angle;
pub mod components;
pub mod debug_overlay;
pub mod decision_laws;
pub mod extract;
pub mod finish;
pub mod formats;
pub mod graph;
pub mod grid;
pub mod hull;
pub mod image_laws;
pub mod imaging;
pub mod laws;
pub mod listing;
pub mod mask_laws;
pub mod order_laws;
pub mod output;
pub mod output_laws;
pub mod paths;
pub mod pipeline;
pub mod pixel_laws;
pub mod preprocess;
pub mod providers;
pub mod ranking;
pub mod raster;
pub mod region_laws;
pub mod text;
pub mod votes;
