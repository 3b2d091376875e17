//! Regular expressions over sequences of arbitrary elements.
//!
//! A pattern of this library matches a sequence of values of any type `T`.
//! Where a regular expression over text has a character class, such a
//! pattern has a predicate on `T`. Patterns are built with the functions of
//! [`Regex`] or read from a text with [`vec_reg`], compiled to a program
//! for a matching machine, and then asked in three ways: whether they match
//! a whole input, whether they match some part of it, and for the captures
//! of the leftmost match.
//!
//! ```text
//! let is_fizz = |x: &i32| x % 3 == 0;
//! let is_buzz = |x: &i32| x % 5 == 0;
//! let reg = Regex::concat(
//!     Regex::satisfy(is_fizz),
//!     Regex::repeat1(Regex::concat(Regex::satisfy(is_buzz), Regex::is(15)), true),
//! )
//! .compile();
//! assert!(reg.is_full_match(&[6, 10, 15, 10, 15]));
//! ```
//!
//! The notation of pattern texts:
//!
//! | Text | Meaning |
//! |:--|:--|
//! | `[name]` | one element on which the predicate `name` holds |
//! | `[\|x\| ...]` | one element on which the closure holds |
//! | `[^name]` | one element on which the predicate does not hold |
//! | `.` | any one element |
//! | `R S` | `R` followed by `S` |
//! | `R\|S` | `R` or `S`, `R` preferred |
//! | `R?`, `R??` | zero or one `R`, preferring one; preferring zero |
//! | `R*`, `R*?` | zero or more `R`, preferring more; preferring fewer |
//! | `R+`, `R+?` | one or more `R`, preferring more; preferring fewer |
//! | `R{n}`, `R{n}?` | exactly `n` times `R` |
//! | `R{n,}`, `R{n,}?` | `n` or more times `R`, preferring more; preferring fewer |
//! | `R{n,m}`, `R{n,m}?` | `n` to `m` times `R`, preferring more; preferring fewer |
//! | `(R)` | a capturing group |
//! | `(?:R)` | a group that does not capture |
//! | `(?P<"name">R)` | a capturing group with a name |
//! | `^`, `$` | the start and the end of the input |
//!
//! What the library states and proves:
//!
//! - [`regex::matches_between`] says what it means that a pattern matches a
//!   part of an input, and [`semantics::derives`] what a pattern records
//!   for its groups while it matches.
//! - [`compiler::code_of`] is the layout of the program that a pattern is
//!   compiled to, instruction for instruction.
//! - [`machine::machine_result`] is the matching machine as mathematics:
//!   which thread it hands back, the order of its threads being their
//!   priority. [`runner::run_vm`] hands back exactly that thread. It finds
//!   an accepting thread exactly when there is one, and then one that
//!   started leftmost; it never holds more threads than the program has
//!   instructions, and evaluates at most one predicate for each instruction
//!   and input position.
//! - The module `correctness` shows that the threads of the program of a
//!   pattern run exactly as the pattern matches; so [`CompiledRegex`]
//!   answers by the meaning of the pattern. The module `laws` holds what
//!   follows for all patterns and inputs, and the module `preference` shows
//!   greedy and lazy at work on the simplest pattern.
//! - [`parser::read_pattern`] says which pattern a text writes, or what is
//!   wrong with it and where, and [`grammar::writes`] is the grammar that
//!   the reader follows.

pub mod captures;
pub mod compiler;
pub mod correctness;
pub mod grammar;
pub mod inst;
pub mod laws;
pub mod machine;
pub mod matcher;
pub mod parser;
pub mod pattern;
pub mod predicate;
pub mod preference;
pub mod regex;
pub mod runner;
pub mod sample;
pub mod semantics;
pub mod surface;
pub mod text;

pub use captures::{Captures, Match};
pub use matcher::{CompiledRegex, CompiledRegexInVm};
pub use pattern::{ErrorKind, ParseError, Pattern};
pub use regex::Regex;
pub use surface::{vec_reg, PatternError, Predicates};
