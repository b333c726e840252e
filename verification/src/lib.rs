//! Packet filtering and packet formatting for a packet dump tool.
//!
//! A filter expression is parsed ([`parser`]) into a tree ([`ast`]), and the tree is compiled
//! ([`compiler`]) into a CBPF program that the kernel or the virtual machine ([`vm`]) runs on
//! packets. [`meaning`] proves that the program matches the packets for which the expression
//! holds. [`packet`] reads the headers of a packet, [`print`] and [`format`] give its printed
//! form, [`capture`] lays out and walks the ring buffer of a capture socket, and [`session`]
//! decides what a run of the tool does.

pub mod addr;
pub mod addr_text;
pub mod agreement;
pub mod assembler;
pub mod ast;
pub mod block;
pub mod capture;
pub mod clock;
pub mod compiler;
pub mod derivation;
pub mod dumps;
pub mod fields;
pub mod format;
pub mod grammar;
pub mod interfaces;
pub mod lexemes;
pub mod lexer;
pub mod meaning;
pub mod nets;
pub mod notation;
pub mod numerals;
pub mod packet;
pub mod parser;
pub mod precedence;
pub mod print;
pub mod printed;
pub mod readings;
pub mod runs;
pub mod session;
pub mod shape;
pub mod steps;
pub mod syntax;
pub mod text;
pub mod timestamps;
pub mod types;
pub mod values;
pub mod vm;
pub mod wellformed;

pub use ast::{Direction, FilterAst, HostAddr, NetAddr, ParseError, Protocol, RelOp};
pub use compiler::compile;
pub use parser::parse;
pub use types::Instruction;
pub use vm::Vm;
