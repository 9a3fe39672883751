//! A gas-metering transformer for streams of decoded WebAssembly operators.
//!
//! The [`metering::Metering`] transducer sits between a decoder and a code
//! generator. It counts one point for every event of a straight-line block and
//! rewrites the stream so that, before a block runs, the block's cost is added
//! to an instance-wide total and the call traps once the total passes a limit.
//!
//! - [`event`] and [`sink`] hold the events and the buffer they are written to.
//! - [`metering`] holds the transducer and says what one event does.
//! - [`rewrite`] says what becomes of a whole function body, [`laws`] what
//!   holds of every function body, and [`shape`] what the sink looks like at
//!   its end.
//! - [`fields`] hands out the two internal fields of an instance and reads and
//!   writes them; [`api`] holds what a foreign-function layer decides.
//! - [`event_trace`] is a middleware that changes nothing.

pub mod api;
pub mod event;
pub mod event_trace;
pub mod fields;
pub mod laws;
pub mod metering;
pub mod rewrite;
pub mod shape;
pub mod sink;
