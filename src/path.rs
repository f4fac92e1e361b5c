use vstd::prelude::*;

verus! {

/// The last component of a path, as `std::path::Path::file_name` gives it.
pub uninterp spec fn file_name_of(p: Seq<char>) -> Option<Seq<char>>;

/// The path without its last component, as `std::path::Path::parent` gives it.
pub uninterp spec fn parent_of(p: Seq<char>) -> Option<Seq<char>>;

/// The path with its last component replaced, as
/// `std::path::Path::with_file_name` gives it.
pub uninterp spec fn with_file_name_of(p: Seq<char>, name: Seq<char>) -> Seq<char>;

/// Relies on `std::path::Path::file_name`: the final component of the path,
/// or `None` where the path ends in `..` or is a root or empty.
#[verifier::external_body]
pub(crate) fn file_name(p: &String) -> (r: Option<String>)
    ensures
        match r {
            Some(n) => file_name_of(p@) == Some(n@),
            None => file_name_of(p@) is None,
        },
{
    std::path::Path::new(p.as_str()).file_name().map(|n| n.to_string_lossy().into_owned())
}

/// Relies on `std::path::Path::parent`: the path without its final
/// component, or `None` where the path is a root or empty.
#[verifier::external_body]
pub(crate) fn parent(p: &String) -> (r: Option<String>)
    ensures
        match r {
            Some(d) => parent_of(p@) == Some(d@),
            None => parent_of(p@) is None,
        },
{
    std::path::Path::new(p.as_str()).parent().map(|d| d.to_string_lossy().into_owned())
}

/// Relies on `std::path::Path::with_file_name`: the path with its final
/// component replaced by `name`.
#[verifier::external_body]
pub(crate) fn with_file_name(p: &String, name: &String) -> (r: String)
    ensures
        r@ == with_file_name_of(p@, name@),
{
    std::path::Path::new(p.as_str()).with_file_name(name.as_str()).to_string_lossy().into_owned()
}

/// `k` underscores.
pub open spec fn underscores(k: nat) -> Seq<char> {
    Seq::new(k, |i: int| '_')
}

/// The `k`-th path tried for `target` when it is taken: the target itself
/// for `k == 0`, else its file name behind `k` underscores, in the same
/// directory. `None` where a prefix is needed and the target has no file name.
pub open spec fn candidate_of(target: Seq<char>, k: nat) -> Option<Seq<char>> {
    if k == 0 {
        Some(target)
    } else {
        match file_name_of(target) {
            Some(name) => Some(with_file_name_of(target, underscores(k) + name)),
            None => None,
        }
    }
}

/// A string of `k` underscores.
pub fn underscore_run(k: usize) -> (r: String)
    ensures
        r@ == underscores(k as nat),
{
    let mut s = String::new();
    let mut i: usize = 0;
    while i < k
        invariant
            i <= k,
            s@ == underscores(i as nat),
        decreases k - i,
    {
        s.append("_");
        proof {
            reveal_strlit("_");
        }
        assert(s@ =~= underscores((i + 1) as nat));
        i = i + 1;
    }
    s
}

/// The `k`-th candidate path for `target` (see `candidate_of`); fails with
/// `None` where a prefix is needed and the target has no file name.
pub fn candidate_path(target: &String, k: usize) -> (r: Option<String>)
    ensures
        match r {
            Some(c) => candidate_of(target@, k as nat) == Some(c@),
            None => candidate_of(target@, k as nat) is None,
        },
{
    if k == 0 {
        return Some(target.clone());
    }
    match file_name(target) {
        Some(name) => {
            let mut new_name = underscore_run(k);
            new_name.append(name.as_str());
            Some(with_file_name(target, &new_name))
        },
        None => None,
    }
}

} // verus!
