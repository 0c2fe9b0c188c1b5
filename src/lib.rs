//! Build-time file templating: placeholder pools, combination enumeration,
//! bindings and a chunked text transformer that respects UTF-8 and
//! placeholder boundaries.

pub mod error;
pub mod pool;
pub mod replacer;
pub mod resource;
pub mod solver;
pub mod stream;
pub mod template;
pub mod text;
pub mod variant;

pub use error::KeyLookUpError;
pub use pool::Pool;
pub use replacer::{Handle, Replacer};
pub use resource::{Resource, Resources};
pub use solver::Solver;
pub use stream::{check_expression_block, text_chunks, Error, StringStream};
pub use template::Template;
pub use variant::{variant, Variant};
