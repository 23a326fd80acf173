//! A terminal quiz runner's core: question identities, the wrong-answer
//! ledger with its line-oriented file format, the selection engine and the
//! per-answer decisions of the quiz loop.

pub mod text;
pub mod question;
pub mod ledger;
pub mod store;
pub mod selection;
pub mod quiz;
