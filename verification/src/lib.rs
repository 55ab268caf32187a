pub mod draw;
pub mod geneva;
pub mod geometry;
pub mod gps;
pub mod lanes;
pub mod model;
pub mod ordered;
pub mod raw_data;
pub mod ui;
