//! Statistics of compressed partitions and of whole tables, as the planner of
//! PostgreSQL reads them.

pub mod assoc;
pub mod bounds;
pub mod column_laws;
pub mod estimates;
pub mod json;
pub mod merge_laws;
pub mod partition;
pub mod segments;
pub mod row_laws;
pub mod sketch;
pub mod slots;
pub mod table;
pub mod values;
