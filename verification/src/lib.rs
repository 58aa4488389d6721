//! Navigation trees for a documentation site.
//!
//! A tree of directories and documents is turned into a tree of links, in
//! natural title order, and optionally reshaped by a list of navigation rules.

pub mod directory;
pub mod link;
pub mod natural;
pub mod navigation;
pub mod rules;
pub mod sorting;
pub mod text;
pub mod uri;

pub use directory::{Directory, Document};
pub use link::Link;
pub use navigation::{Navigation, NavigationError};
pub use rules::{Config, DirIncludeRule, NavRule};
