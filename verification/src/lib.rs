//! A miniature document-styling engine: a markup parser, a stylesheet
//! parser, and a cascade resolver that attaches a resolved property
//! mapping to every node of the markup tree.

pub mod css;
pub mod dom;
pub mod errors;
pub mod parser;
pub mod scan;
pub mod style;

use vstd::prelude::*;

verus! {

} // verus!
