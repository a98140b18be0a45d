pub mod background;
pub mod background_laws;
pub mod cache_key;
pub mod constant_laws;
pub mod contact_laws;
pub mod contour;
pub mod contour_laws;
pub mod float;
pub mod float_bounds;
pub mod float_laws;
pub mod grid;
pub mod group_laws;
pub mod hull;
pub mod hull_laws;
pub mod image_source;
pub mod key_laws;
pub mod laws;
pub mod mask;
pub mod mask_laws;
pub mod model;
pub mod momentum_laws;
pub mod names;
pub mod nearest_laws;
pub mod operation_laws;
pub mod outline;
pub mod outline_laws;
pub mod piece_laws;
pub mod plugin;
pub mod polygon;
pub mod polygon_laws;
pub mod push_laws;
pub mod root_laws;
mod rounding;
pub mod sat;
pub mod sat_laws;
pub mod scene;
pub mod simplify;
pub mod simplify_laws;
pub mod vec2;
