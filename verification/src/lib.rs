//! Provenance for Python sources: a decorator is put on every function and
//! class definition of a source text, and content is bound to a signer by a
//! digest and an Ed25519 signature over it.
//!
//! The syntax side is `parser` (text to tree), `tree` (the tree and its
//! walk), `decorator` (injection) and `render` (tree to text). The
//! cryptographic side is `crypto`, over `hexcode`.

pub mod crypto;
pub mod decorator;
pub mod hexcode;
pub mod laws;
pub mod lines;
pub mod parser;
pub mod render;
pub mod text;
pub mod tree;
