//! A small language of conditions, and the decisions of the host around it.
//!
//! A condition such as `contains(product_types, 'FEX') && !env.troubleshooting`
//! is evaluated against a tree of variables and gives a boolean.  The language
//! forgives text that was copied from elsewhere (curly quotes, unusual spaces),
//! and a condition that is not understood is false.
//!
//! - `text`: characters, trimming, searching and splitting.
//! - `number`: decimal numbers, held exactly, and the texts that spell them.
//! - `binary64`: the binary64 values that numbers are compared as, and the
//!   rounding of a decimal to the nearest of them.
//! - `value`: the tree of variables, paths into it, truthiness and coercion.
//! - `normalize`: the normal form of an expression.
//! - `functions`: the function calls `always`, `contains`, `startsWith`,
//!   `endsWith`, and `coalesce`.
//! - `comparison`: the six comparison operators.
//! - `evaluator`: negation, conjunction, disjunction, and the entry point
//!   `evaluate`.
//! - `laws`: what holds of every evaluation.
//! - `telemetry`: what the host decides about error tracking.
//! - `exceptions`: how an automation error is reported to the host.

pub mod binary64;
pub mod comparison;
pub mod evaluator;
pub mod exceptions;
pub mod functions;
pub mod laws;
pub mod normalize;
pub mod number;
pub mod telemetry;
pub mod text;
pub mod value;

pub use evaluator::{evaluate, evaluate_verdict, Verdict};
pub use exceptions::map_error;
pub use normalize::normalize_expression;
pub use number::Number;
pub use telemetry::{add_breadcrumb, create_sentry_layer, init_sentry, shutdown_sentry};
pub use value::{get_value, Value};
