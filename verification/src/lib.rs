//! Verified cores of a family of small text-processing tools: selecting
//! columns, counting, taking the head or the tail of a text, collapsing and
//! comparing lines. Every function states in its contract what it computes.

pub mod catr;
pub mod commr;
pub mod cutr;
pub mod echor;
pub mod error;
pub mod findr;
pub mod fortuner;
pub mod grepr;
pub mod headr;
pub mod lines;
pub mod pattern;
pub mod position_laws;
pub mod selection_laws;
pub mod tailr;
pub mod text;
pub mod uniqr;
pub mod wcr;
