//! A virtual machine for a fixed 32-bit instruction set over an address space
//! of independently sized, dynamically allocated memory segments.
//!
//! The machine is a pure state machine: it never touches a byte stream
//! itself. One cycle either completes silently or tells the host what to do
//! (write a byte, supply a byte, stop), so the same engine can drive real
//! standard streams or run entirely on in-memory data.

pub mod instruction;
pub mod machine;
pub mod memory;
pub mod registers;
