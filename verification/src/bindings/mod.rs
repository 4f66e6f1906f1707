//! What the library takes on trust from other crates and from the standard library.
//!
//! Each function here makes one outside call on plain values and returns plain values. Its
//! contract is not proved: it states what the documentation or the source of the callee
//! shows. Where stating a result would take pages, the result has a name, a function of the
//! arguments alone, and the contracts of the library speak of that name.

pub mod codec;
pub mod html;
pub mod recent;
pub mod unicode;
pub mod url;
