pub mod hashmap;
pub mod table;
pub mod value;
