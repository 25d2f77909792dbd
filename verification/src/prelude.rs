//! What a user of views needs at hand.

pub use crate::signal::ShouldRender;
pub use crate::view::{Html, IntoHtml};
