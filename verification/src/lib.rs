//! The array layer of a recursion compiler's intermediate representation, verified.
//!
//! - `field`: the native field (BabyBear) and the conversions taken from p3.
//! - `ir`: variables, instructions, and the builder that records a program.
//! - `variable`: what every kind of variable can do (copy, compare, load, store).
//! - `collections`: arrays, fixed or in memory, and their builder operations.
//! - `fri`: hashing the opened rows of a batch and walking its Merkle path.
//! - `semantics`: what a program does when the machine runs it.
//! - `laws`: what the programs built for arrays do when they run.
//! - `digest`: what the program that digests the tables of one height does when it runs.
//! - `merkle`: what the program that walks a batch opening's Merkle path does when it runs.
//! - `io`: which host system calls a guest's output makes.

pub mod field;
pub mod ir;
pub mod variable;
pub mod collections;
pub mod fri;
pub mod semantics;
pub mod laws;
pub mod digest;
pub mod merkle;
pub mod io;
