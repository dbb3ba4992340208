//! The engine of a front end for gdb's machine interface: commands and
//! how they are written, the debugger's output and how it is read, and
//! the discipline of one command at a time that ties the two together.

pub mod breakpoint;
pub mod commands;
pub mod coordinator;
pub mod decoder;
pub mod escape;
pub mod frontend;
pub mod output;
pub mod text;
pub mod value;
