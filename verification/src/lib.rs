//! Verified core of a repeated differentiated-goods Bertrand pricing game
//! played by language-model firms: the firm personas, the text of the
//! decision prompts, the parsing of the firms' replies, the bounded
//! per-firm memory, and the bookkeeping of runs and trials.

pub mod persona;
pub mod text;
pub mod prompts;
pub mod replies;
pub mod memory;
pub mod record;
pub mod cli;
pub mod world;
pub mod scripted;
pub mod readback;
