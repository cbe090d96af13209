//! Index, layout and bookkeeping logic of a recursive strong skeletonisation
//! (RSRS) solver: the parts of the factorisation that decide which rows,
//! columns, boxes, blocks and bytes are involved, stated and proved.
#![allow(unused_imports)]

pub mod memory;
pub mod matrix;
pub mod part_files;
pub mod levels;
pub mod statistics;
pub mod near_groups;
pub mod factors;
pub mod sampling;
