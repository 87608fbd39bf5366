//! Enumerating the titles of open desktop windows by way of a platform
//! scripting tool: a verified quote-aware parser for the tool's bracketed
//! list replies, and the classification of a finished tool run into a title
//! list or a typed error.  Spawning the tool itself is left to the caller.

pub mod laws;
pub mod parser;
pub mod provider;

pub use parser::split;
pub use provider::Connection;
pub use provider::WindowTitleError;
