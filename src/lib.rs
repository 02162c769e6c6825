pub mod hasher;
pub mod table;
