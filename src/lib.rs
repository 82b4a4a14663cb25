use vstd::prelude::*;

pub mod archive;
pub mod encoder;
pub mod names;
pub mod path;
pub mod rewrite;

verus! {

/// What the back end reports of a request that runs in the background.
#[derive(Clone)]
pub enum BackendEvent {
    /// The request has finished.
    Done,
    /// The request produced an inline result.
    Inlined { result: String },
    /// The request failed.
    Failed { msg: String },
}

} // verus!
