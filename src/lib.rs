//! Renders templates in which tags of the form `<!$ name arg>` are replaced by
//! the output of handlers registered under `name`.
//!
//! The scanner finds the tags of a text, left to right and without nesting;
//! the renderer splits each tag's content at its first space into a name and
//! an argument, calls the handler registered under that name, and splices
//! what it returns into the output. Handlers implement
//! [`PlaceholderFunction`] and may keep state between calls.

pub mod registry;
pub mod renderer;
pub mod scanner;
pub mod text;

pub use registry::{Handler, PlaceholderFunction};
pub use renderer::{RenderError, TemplateRenderer, assemble, split_invocation};
pub use scanner::{PlaceholderExpr, parse_placeholders};
pub use text::split_once;
