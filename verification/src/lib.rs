//! Natural ordering of file names and the decisions of a folder archiving
//! run: which folders get archived, in which order their files go into the
//! archive, and what is done with each folder, step by step. Nothing here
//! touches a disk or starts a program; whoever uses the library does that
//! and tells it what came of it.

pub mod dispatch;
pub mod entries;
pub mod file_order;
pub mod key_order;
pub mod leaves;
pub mod lex;
pub mod names;
pub mod numeric_order;
pub mod options;
pub mod pipeline;
pub mod report;
pub mod resolve;
pub mod sort_key;
pub mod stable_order;
pub mod target;
