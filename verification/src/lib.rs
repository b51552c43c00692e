//! A propositional resolution theorem prover.
//!
//! A goal clause is proved by refutation: its negation is assumed, the
//! knowledge base is saturated by forward chaining over all clause pairs,
//! and a derivation of the empty clause is replayed as a proof.

pub mod counting;
pub mod disj;
pub mod kb;
pub mod output;
pub mod parser;
pub mod semantics;
pub mod sequent;
pub mod term;

pub use crate::disj::Disj;
pub use crate::kb::Cause;
pub use crate::kb::KB;
pub use crate::output::OutputMode;
pub use crate::parser::ParseError;
pub use crate::parser::parse_disj;
pub use crate::sequent::Sequent;
pub use crate::sequent::reconstruct;
pub use crate::term::Term;
