pub mod position;
pub mod state;
pub mod grouping;
pub mod matrix;
pub mod repeating;
pub mod stroke_map;
