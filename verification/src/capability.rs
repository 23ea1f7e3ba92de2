//! Which acceleration backends the machine offers to the neural engine.
use vstd::prelude::*;
use crate::text::{split_at_char, split_char};

verus! {

/// The backends the engine can run on here.
#[derive(Debug, Clone)]
pub struct Capability {
    pub cpu: bool,
    pub cuda: bool,
    pub vulkan: bool,
}

/// The directories named by a `PATH` value, which separates them with `;`.
pub fn search_path_dirs(path_var: &str) -> (r: Vec<String>)
    ensures
        r.deep_view() == split_at_char(path_var@, ';'),
{
    split_char(path_var, ';')
}

/// The capability, from whether each CUDA library was found and whether
/// the Vulkan loader was: the CPU is always there, CUDA needs every one of
/// its libraries.
pub fn capability_from(cuda_libraries_found: &Vec<bool>, vulkan_found: bool) -> (r: Capability)
    ensures
        r.cpu,
        r.cuda == (forall|i: int| 0 <= i < cuda_libraries_found.len() ==> #[trigger] cuda_libraries_found@[i]),
        r.vulkan == vulkan_found,
{
    let mut all_found = true;
    for i in 0..cuda_libraries_found.len()
        invariant
            all_found == (forall|k: int| 0 <= k < i ==> #[trigger] cuda_libraries_found@[k]),
    {
        if !cuda_libraries_found[i] {
            all_found = false;
        }
    }
    Capability { cpu: true, cuda: all_found, vulkan: vulkan_found }
}

} // verus!
