pub mod types;
pub mod geom;
pub mod map_model;
pub mod neighbourhood;
pub mod cells;
pub mod route;
pub mod savefile;
pub mod shortcuts;
pub mod ltn;
