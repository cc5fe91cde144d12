//! Pack exchange and tree updates for a monorepo whose objects live in an
//! object store and whose history moves through merge requests.

pub mod api;
pub mod byteseq;
pub mod commit;
pub mod engine;
pub mod errors;
pub mod hash;
pub mod invariants;
pub mod laws;
pub mod merge_laws;
pub mod monorepo;
pub mod mr;
pub mod object;
pub mod path;
pub mod queue;
pub mod resolver;
pub mod scan;
pub mod seqs;
pub mod service;
pub mod store;
pub mod switch;
pub mod tree;
pub mod wire;
