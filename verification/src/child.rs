//! Events exchanged with the child process behind the pseudo-terminal. The
//! transport loop itself performs I/O and lives outside this library; it hands
//! the bytes it reads to [`crate::translator::Translator::write`].

use vstd::prelude::*;

verus! {

/// A message sent to the child process: raw keystroke bytes to forward to its
/// standard input, unmodified.
#[derive(Debug, Clone)]
pub enum InputEvent {
    Stdin(Vec<u8>),
}

} // verus!
