use vstd::prelude::*;

verus! {

/// The prefix of the application's resource paths.
pub const RESOURCE_PATH_PREFIX: &'static str = "/io/github/cat-in-136/gtk3-basic-bulk-renamer/";

/// The resource path of `path`: the prefix followed by `path`.
pub fn resource_path(path: &str) -> (r: String)
    ensures
        r@ == RESOURCE_PATH_PREFIX@ + path@,
{
    let mut s = String::from_str(RESOURCE_PATH_PREFIX);
    s.append(path);
    s
}

} // verus!
