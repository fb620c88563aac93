//! Two scripted personas take turns in a debate; each turn's request is
//! built from the transcript as seen by the persona about to speak, and
//! replies are cached by the exact request.

pub mod message;
pub mod cache;
pub mod order;
pub mod tokens;
pub mod debate;
