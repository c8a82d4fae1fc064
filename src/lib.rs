//! A bytebeat machine: a melody text is tokenized once into a program of
//! hexadecimal literals and one-letter opcodes, and the program is executed
//! once per time step against a persistent ring of 256 registers.
pub mod ring;
pub mod machine;
pub mod tokenizer;
pub mod lexxon;
pub mod laws;
