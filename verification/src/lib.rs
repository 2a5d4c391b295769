//! A personal task-timing library.
//!
//! Each run of the surrounding tool is a separate short-lived process, so all
//! timer state lives in a flat on-disk log of comma-separated records.  This
//! crate holds the three durable pieces of that design: the record codec
//! (one log entry to and from its wire line), the log store (append, find,
//! replace, delete and list over the whole record collection), and the timer
//! state deriver (start, pause, resume, stop and elapsed-time computation
//! from persisted fields plus the wall clock).  File input and output stay
//! with the caller: the library maps plain text to plain text.

pub mod clock;
pub mod config;
pub mod record;
pub mod store;
pub mod text;
pub mod timer;
