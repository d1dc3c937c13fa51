// Windowed averages of recombination rate along chromosomes: a reader for
// whitespace-separated interval tables, the engine that folds each
// chromosome's intervals into windows of a minimum span, and the laws that
// its output obeys.
use vstd::prelude::*;

pub mod aggregate;
pub mod grouping;
pub mod interval;
pub mod laws;
pub mod loader;
pub mod text;
pub mod window;

verus! {

} // verus!
