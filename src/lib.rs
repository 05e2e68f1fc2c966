pub mod controls;
pub mod model;
pub mod rendering;
