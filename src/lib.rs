//! A single-threaded event-loop core in the style of Node.js: a callback
//! registry keyed by handles, a deadline-ordered timer queue, a fixed pool of
//! worker slots and the loop's step function, all verified.

mod bytes;
mod collaborators;
mod js;
mod registry;
mod runtime;
mod timers;

pub use bytes::{consume_u32, safe_transmute, u32_at};
pub use collaborators::{Crypto, Fs};
pub use js::{Js, ThreadPoolTaskKind};
pub use registry::Registry;
pub use runtime::{Dispatch, PollEvent, Runtime, RuntimeError, Step};
pub use timers::TimerQueue;
