pub mod maze;
pub mod num;
pub mod occupancy;
pub mod sprite;
pub mod region;
