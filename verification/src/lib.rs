//! Exact, context-checked CSS numeric values: type algebra, checked
//! calculation trees, exact decimal arithmetic and bounded serialization.

pub mod serialization;
pub mod bignum;
pub mod exact;
pub mod rational;
pub mod numeric_type;
pub mod units;
pub mod components;
pub mod calculation;
pub mod opacity;
pub mod media_features;
pub mod specified;
pub mod media_queries;
pub mod binary;
pub mod unicode_range;
