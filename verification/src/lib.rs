//! Markup parsing and incremental view updates.
//!
//! The first half of the crate reads markup: [`token`] holds the tokens, [`dom`] the tree,
//! [`syntax`] says what the parser makes of a stream, [`parser`] is the parser, and
//! [`grammar`] and [`render`] hold the laws that tie the parser to the language.
//!
//! The second half shows views: [`surface`] records what happens to the live surface,
//! [`view`] is the contract of everything that can be shown, and [`value`], [`list`] and
//! [`branch`] are the views that come with the crate. [`root`] holds the entry point.

pub mod branch;
pub mod dom;
pub mod error;
pub mod grammar;
pub mod list;
pub mod parser;
pub mod prelude;
pub mod render;
pub mod root;
pub mod signal;
pub mod surface;
pub mod syntax;
pub mod token;
pub mod util;
pub mod value;
pub mod view;

pub use crate::root::start;
pub use crate::signal::ShouldRender;
pub use crate::view::{Html, IntoHtml, Mountable};
