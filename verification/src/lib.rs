//! A solver for monoalphabetic substitution ciphers ("cryptograms").
//!
//! Given a dictionary of plaintext words and an encrypted phrase, the solver
//! enumerates every injective letter-to-letter mapping under which each token
//! of the phrase decodes to a dictionary word, and renders the decoded
//! phrases.

pub mod laws;
pub mod mapping;
pub mod pattern;
pub mod phrase;
pub mod solver;
