//! Derivation core of a rollup node: turns observed L1 blocks and
//! data-availability frames into an ordered stream of payload attributes,
//! and feeds them to an execution engine one block at a time.

pub mod attribute;
pub mod block;
pub mod da;
pub mod engine;
pub mod epoch;
pub mod executor;
pub mod pool;
pub mod runner;
