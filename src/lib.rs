pub mod geometry;
pub mod im2col;
pub mod matrix;
pub mod mmm;
pub mod packer;
pub mod patch;
pub mod patcher;
pub mod shape;
pub mod tensor;
