//! Passphrases from a second-order Markov chain over the words of a training text.
//!
//! `normalize` turns text into tokens, `model` indexes every window of three tokens by the
//! context of its first two, and `walk` draws a sequence of tokens from that index.
use vstd::prelude::*;

pub mod normalize;
pub mod model;
pub mod walk;

pub use model::{create_transition_matrix, TransitionModel};
pub use normalize::{clean_word, tokenize};
pub use walk::{generate, generate_passphrase, markov_chain, markov_chain_with_choices, PassphraseError};
