//! A backtracking register allocator.
//!
//! [`backtracking::alloc_main`] allocates registers for a function that implements
//! [`interface::Function`]. [`inst_stream::edit_inst_stream`] pushes a given allocation into
//! instructions, under the eyes of a [`checker::Checker`] if one is wanted.

#![allow(non_snake_case)]

pub mod allocator;
pub mod backtracking;
pub mod checker;
pub mod course;
pub mod edit_laws;
pub mod frags;
pub mod in_force;
pub mod index;
pub mod input_check;
pub mod input_laws;
pub mod inst_stream;
pub mod interface;
pub mod laws;
pub mod limits;
pub mod map_laws;
pub mod mapping;
pub mod meaning;
pub mod outcome;
pub mod plain;
pub mod prio_queue;
pub mod ranges;
pub mod real_reg;
pub mod regs;
pub mod result_laws;
pub mod room_laws;
pub mod safety;
pub mod show;
pub mod show_laws;
pub mod slot_homes;
pub mod slot_laws;
pub mod sort;
pub mod spill;
pub mod spill_laws;
pub mod spill_safety;
pub mod splice_laws;
pub mod state;
pub mod stream;
pub mod stream_laws;
pub mod table_laws;
pub mod turn_laws;
