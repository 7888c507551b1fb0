use vstd::prelude::*;

pub mod gallery;
pub mod generator;
pub mod naming;
pub mod pipeline;

verus! {

/// The directory, relative to the working directory, that holds the saved images.
pub fn output_path() -> (r: &'static str)
    ensures
        r@ == seq!['o', 'u', 't', 'p', 'u', 't', 's', '/'],
{
    proof {
        reveal_strlit("outputs/");
    }
    "outputs/"
}

} // verus!
