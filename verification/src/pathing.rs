pub mod direction;
pub mod path_grid;
