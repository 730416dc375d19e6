//! A reversible stack machine over textual instructions, with a handful of
//! small text and number utilities: FizzBuzz sequences, Fibonacci numbers,
//! decimal big integers, and quoted-field CSV lines.
pub mod bigint;
pub mod csv;
pub mod decimal;
pub mod fib;
pub mod fizzbuzz;
pub mod interpreter;
pub mod labeled;
pub mod text;
