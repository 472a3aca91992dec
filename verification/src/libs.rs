pub mod bitvec;
pub mod fixed_point;
pub mod tiny_float;
pub mod fast_float;
pub mod big_endian;
pub mod bytegrid;
pub mod fine_grid;
pub mod netcom;
pub mod tmx_decode;
