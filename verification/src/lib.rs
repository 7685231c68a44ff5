pub mod alphabet;
pub mod bscii;
pub mod tree;
pub mod render;
