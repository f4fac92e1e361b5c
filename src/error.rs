use vstd::prelude::*;

verus! {

/// A requested rename: the source path first, the target path second.
pub type RenameMapPair = (String, String);

/// Declares `std::io::Error`, which errors carry unchanged for diagnostics.
/// Nothing is assumed of its content.
#[verifier::external_type_specification]
#[verifier::external_body]
pub struct ExIoError(std::io::Error);

/// Why a bulk rename could not be carried out.
#[derive(Debug)]
pub enum RenameError {
    /// The operation has already been executed.
    Executed,
    /// These pairs name a source that does not exist.
    SourceFileNotFound(Vec<RenameMapPair>),
    /// The target of this pair exists already.
    TargetFileAlreadyExists(RenameMapPair),
    /// No temporary entry could be made in the target's directory.
    TargetDirectoryNotWritable(RenameMapPair, std::io::Error),
    /// A filesystem action for this pair failed.
    IoError(RenameMapPair, std::io::Error),
    /// A path has no file name or no parent directory.
    IllegalOperation,
}

/// A pair of paths, as character sequences: source first, target second.
pub type PathPair = (Seq<char>, Seq<char>);

/// The paths of a pair, as character sequences.
pub open spec fn pair_view(p: RenameMapPair) -> PathPair {
    (p.0@, p.1@)
}

/// The paths of a list of pairs, as character sequences.
pub open spec fn pairs_view(v: Seq<RenameMapPair>) -> Seq<PathPair> {
    v.map_values(|p: RenameMapPair| pair_view(p))
}

/// `RenameError` with its paths as character sequences.
pub enum RenameErrorView {
    Executed,
    SourceFileNotFound(Seq<PathPair>),
    TargetFileAlreadyExists(PathPair),
    TargetDirectoryNotWritable(PathPair, std::io::Error),
    IoError(PathPair, std::io::Error),
    IllegalOperation,
}

impl View for RenameError {
    type V = RenameErrorView;

    open spec fn view(&self) -> RenameErrorView {
        match self {
            RenameError::Executed => RenameErrorView::Executed,
            RenameError::SourceFileNotFound(v) => RenameErrorView::SourceFileNotFound(pairs_view(v@)),
            RenameError::TargetFileAlreadyExists(p) => RenameErrorView::TargetFileAlreadyExists(pair_view(*p)),
            RenameError::TargetDirectoryNotWritable(p, e) => RenameErrorView::TargetDirectoryNotWritable(pair_view(*p), *e),
            RenameError::IoError(p, e) => RenameErrorView::IoError(pair_view(*p), *e),
            RenameError::IllegalOperation => RenameErrorView::IllegalOperation,
        }
    }
}

/// The view of an outcome: success, or the error's view.
pub open spec fn outcome_view(r: Result<(), RenameError>) -> Result<(), RenameErrorView> {
    match r {
        Ok(()) => Ok(()),
        Err(e) => Err(e@),
    }
}

/// A copy of a pair.
pub(crate) fn copy_pair(p: &RenameMapPair) -> (r: RenameMapPair)
    ensures
        r == *p,
{
    (p.0.clone(), p.1.clone())
}

/// A copy of a list of pairs.
pub(crate) fn copy_pairs(v: &Vec<RenameMapPair>) -> (r: Vec<RenameMapPair>)
    ensures
        r@ == v@,
{
    let mut r: Vec<RenameMapPair> = Vec::new();
    let mut i: usize = 0;
    while i < v.len()
        invariant
            i <= v.len(),
            r@ == v@.take(i as int),
        decreases v.len() - i,
    {
        r.push(copy_pair(&v[i]));
        assert(r@ =~= v@.take(i + 1));
        i = i + 1;
    }
    assert(r@ =~= v@);
    r
}

} // verus!
