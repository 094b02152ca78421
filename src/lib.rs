pub mod backtracking;
pub mod bits;
pub mod matrix;
pub mod queens;
pub mod zebra;
pub mod myzebra;
