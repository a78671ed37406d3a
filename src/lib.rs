//! A small tape machine for the eight-command language `> < + - . , [ ]`:
//! source text is decoded into a program whose brackets are linked to their
//! partners, and a processor runs that program on a fixed-size byte tape.

pub mod instruction;
pub mod decoder;
pub mod processor;

pub use decoder::{decode, Program};
pub use instruction::{Instruction, VmError};
pub use processor::{Processor, RunStatus, StepEvent, MEMORY_SIZE};
