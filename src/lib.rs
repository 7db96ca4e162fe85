//! Storage and query-execution core of a small relational database: a slotted
//! page format, heap-file record placement and scanning, and pull-based
//! relational operators (grouped aggregation, hash equi-join, nested-loop join).

pub mod page;
pub mod heap_file;
pub mod container_map;
pub mod tuple;
pub mod op_iterator;
pub mod aggregate;
pub mod hash_join;
pub mod nested_loop_join;
