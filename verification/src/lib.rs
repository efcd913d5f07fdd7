pub mod bsearch;
pub mod btree;
pub mod buffer;
pub mod disk;
pub mod memcmpable;
pub mod query;
pub mod slotted;
pub mod table;
pub mod tuple;
