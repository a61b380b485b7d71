pub mod cell;
pub mod column;
pub mod table;
