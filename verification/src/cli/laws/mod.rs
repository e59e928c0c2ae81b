//! What the commands promise: what comes out of them in terms of what goes in, said without
//! the words that their own contracts are written in.
pub mod documents;
pub mod files;
pub mod layouts;
pub mod names;
pub mod running;
pub mod selection;
pub mod values;
