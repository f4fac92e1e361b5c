use vstd::prelude::*;
use crate::error::RenameError;
use crate::path::{candidate_of, candidate_path, file_name_of};

verus! {

/// Finds a free path for a target that may be taken, one probe at a time:
/// the target itself, then its file name behind one, two, three, ...
/// underscores. The caller reports for each candidate whether it is taken.
#[derive(Debug)]
pub struct TargetResolver {
    target: String,
    tries: usize,
    candidate: String,
}

/// The state of a `TargetResolver`: the requested target, how many
/// candidates were found taken so far, and the candidate to probe next.
pub struct ResolverView {
    pub target: Seq<char>,
    pub tries: nat,
    pub candidate: Seq<char>,
}

impl View for TargetResolver {
    type V = ResolverView;

    closed spec fn view(&self) -> ResolverView {
        ResolverView { target: self.target@, tries: self.tries as nat, candidate: self.candidate@ }
    }
}

/// The next candidate is the one for the number of candidates found taken.
pub open spec fn resolver_wf(r: ResolverView) -> bool {
    &&& candidate_of(r.target, r.tries) == Some(r.candidate)
    &&& r.tries <= usize::MAX
}

/// A resolver that has not probed anything yet.
pub open spec fn resolver_start(target: Seq<char>) -> ResolverView {
    ResolverView { target, tries: 0, candidate: target }
}

/// What the resolver does with the answer for its current candidate: a free
/// candidate is the result; a taken one moves on to the next candidate,
/// which fails where the target has no file name to prefix.
pub open spec fn resolve_step(r: ResolverView, taken: bool) -> (ResolverView, Option<Result<Seq<char>, ()>>) {
    if !taken {
        (r, Some(Ok(r.candidate)))
    } else if r.tries + 1 > usize::MAX {
        (r, Some(Err(())))
    } else {
        match candidate_of(r.target, r.tries + 1) {
            Some(c) => (ResolverView { tries: r.tries + 1, candidate: c, ..r }, None),
            None => (r, Some(Err(()))),
        }
    }
}

impl TargetResolver {
    /// A resolver for `target`; its first candidate is `target` itself.
    pub fn new(target: String) -> (r: Self)
        ensures
            r@ == resolver_start(target@),
            resolver_wf(r@),
    {
        let candidate = target.clone();
        TargetResolver { target, tries: 0, candidate }
    }

    /// The path to probe next.
    pub fn candidate(&self) -> (r: &String)
        ensures
            r@ == self@.candidate,
    {
        &self.candidate
    }

    /// Takes the answer for the current candidate. Returns the free path,
    /// `IllegalOperation` where no further candidate can be formed, or `None`
    /// when the next candidate is to be probed.
    pub fn advance(&mut self, taken: bool) -> (r: Option<Result<String, RenameError>>)
        requires
            resolver_wf(old(self)@),
        ensures
            resolver_wf(final(self)@),
            final(self)@ == resolve_step(old(self)@, taken).0,
            match resolve_step(old(self)@, taken).1 {
                None => r is None,
                Some(Ok(c)) => r matches Some(Ok(p)) && p@ == c,
                Some(Err(())) => r matches Some(Err(e)) && e is IllegalOperation,
            },
    {
        if !taken {
            return Some(Ok(self.candidate.clone()));
        }
        if self.tries == usize::MAX {
            return Some(Err(RenameError::IllegalOperation));
        }
        match candidate_path(&self.target, self.tries + 1) {
            Some(c) => {
                self.tries = self.tries + 1;
                self.candidate = c;
                None
            },
            None => Some(Err(RenameError::IllegalOperation)),
        }
    }
}


/// The outcome of probing candidates from `r` on, for at most `fuel`
/// probes, where `taken` holds the paths that are taken.
pub open spec fn resolve_on(r: ResolverView, taken: Set<Seq<char>>, fuel: nat) -> Option<Result<Seq<char>, ()>>
    decreases fuel,
{
    if fuel == 0 {
        None
    } else {
        let (r2, out) = resolve_step(r, taken.contains(r.candidate));
        match out {
            Some(x) => Some(x),
            None => resolve_on(r2, taken, (fuel - 1) as nat),
        }
    }
}

proof fn lemma_resolve_from(r: ResolverView, taken: Set<Seq<char>>, k: nat)
    requires
        resolver_wf(r),
        r.tries <= k <= usize::MAX,
        k > 0 ==> file_name_of(r.target) is Some,
        forall|j: nat| r.tries <= j < k ==> taken.contains(#[trigger] candidate_of(r.target, j)->Some_0),
        !taken.contains(candidate_of(r.target, k)->Some_0),
    ensures
        resolve_on(r, taken, (k - r.tries + 1) as nat) == Some(Ok::<Seq<char>, ()>(candidate_of(r.target, k)->Some_0)),
    decreases k - r.tries,
{
    if r.tries < k {
        assert(taken.contains(candidate_of(r.target, r.tries)->Some_0));
        let r2 = resolve_step(r, true).0;
        lemma_resolve_from(r2, taken, k);
        assert((k - r.tries + 1 - 1) as nat == (k - r2.tries + 1) as nat);
    }
}

/// Collision resolution is minimal and deterministic: where the candidates
/// before the `k`-th are all taken and the `k`-th is free, probing from the
/// requested target yields the `k`-th candidate, after `k + 1` probes.
pub proof fn lemma_first_free_candidate(target: Seq<char>, taken: Set<Seq<char>>, k: nat)
    requires
        k <= usize::MAX,
        k > 0 ==> file_name_of(target) is Some,
        forall|j: nat| j < k ==> taken.contains(#[trigger] candidate_of(target, j)->Some_0),
        !taken.contains(candidate_of(target, k)->Some_0),
    ensures
        resolve_on(resolver_start(target), taken, k + 1) == Some(Ok::<Seq<char>, ()>(candidate_of(target, k)->Some_0)),
{
    lemma_resolve_from(resolver_start(target), taken, k);
}

} // verus!
