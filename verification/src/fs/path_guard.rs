//! Path safety: no conversion reads or writes outside its declared roots,
//! follows an include cycle, or nests includes without bound.
use vstd::prelude::*;
use crate::reader::fence::strs;
use crate::text::{chars_of, push_all, push_decimal, string_of};

verus! {

/// The deepest include nesting accepted.
pub const MAX_INCLUDE_DEPTH: usize = 32;

/// Why a path was refused.
#[derive(Debug, Clone, PartialEq, Eq)]
pub enum PathGuardError {
    /// The path could not be resolved; `message` is the I/O error's text.
    Canonicalize { path: String, message: String },
    EscapesRoot { path: String, root: String },
    AbsoluteTarget { path: String },
    IncludeCycle { path: String },
    DepthExceeded { depth: usize, max: usize },
}

/// The human-readable text of each refusal.
pub open spec fn spec_guard_message(e: PathGuardError) -> Seq<char> {
    match e {
        PathGuardError::Canonicalize { path, message } => "could not resolve path "@ + path@ + ": "@ + message@,
        PathGuardError::EscapesRoot { path, root } => path@ + " escapes its declared root "@ + root@,
        PathGuardError::AbsoluteTarget { path } => path@
            + " is an absolute path; include/embed/toc targets must be project-relative"@,
        PathGuardError::IncludeCycle { path } => "include cycle detected at "@ + path@,
        PathGuardError::DepthExceeded { depth, max } => "include depth "@ + crate::text::dec(depth as nat)
            + " exceeds the maximum of "@ + crate::text::dec(max as nat),
    }
}

impl PathGuardError {
    /// The refusal as a human-readable sentence.
    pub fn message(&self) -> (m: String)
        ensures
            m@ == spec_guard_message(*self),
    {
        let mut v: Vec<char> = Vec::new();
        match self {
            PathGuardError::Canonicalize { path, message } => {
                v = chars_of("could not resolve path ");
                push_all(&mut v, &chars_of(path.as_str()));
                push_all(&mut v, &chars_of(": "));
                push_all(&mut v, &chars_of(message.as_str()));
            },
            PathGuardError::EscapesRoot { path, root } => {
                v = chars_of(path.as_str());
                push_all(&mut v, &chars_of(" escapes its declared root "));
                push_all(&mut v, &chars_of(root.as_str()));
            },
            PathGuardError::AbsoluteTarget { path } => {
                v = chars_of(path.as_str());
                push_all(&mut v, &chars_of(" is an absolute path; include/embed/toc targets must be project-relative"));
            },
            PathGuardError::IncludeCycle { path } => {
                v = chars_of("include cycle detected at ");
                push_all(&mut v, &chars_of(path.as_str()));
            },
            PathGuardError::DepthExceeded { depth, max } => {
                v = chars_of("include depth ");
                push_decimal(&mut v, *depth);
                push_all(&mut v, &chars_of(" exceeds the maximum of "));
                push_decimal(&mut v, *max);
            },
        }
        string_of(&v)
    }
}

/// What `Path::starts_with` answers: `candidate`'s leading components are
/// exactly `root`'s components.
pub uninterp spec fn path_has_prefix(candidate: Seq<char>, root: Seq<char>) -> bool;

/// What `Path::is_absolute` answers for `path`.
pub uninterp spec fn path_absolute(path: Seq<char>) -> bool;

/// Calls `Path::starts_with` on the two paths. Claimed: the answer depends
/// only on the two path texts, and a path starts with itself.
#[verifier::external_body]
fn path_starts_with(candidate: &str, root: &str) -> (r: bool)
    ensures
        r == path_has_prefix(candidate@, root@),
        candidate@ == root@ ==> r,
{
    std::path::Path::new(candidate).starts_with(std::path::Path::new(root))
}

/// Calls `Path::is_absolute`. Claimed: the answer depends only on the text.
#[verifier::external_body]
pub(crate) fn path_is_absolute(path: &str) -> (r: bool)
    ensures
        r == path_absolute(path@),
{
    std::path::Path::new(path).is_absolute()
}

/// `true` when `candidate` is `root` or lies under it, by whole components.
pub fn is_descendant(root: &str, candidate: &str) -> (r: bool)
    ensures
        r == path_has_prefix(candidate@, root@),
        candidate@ == root@ ==> r,
{
    path_starts_with(candidate, root)
}

/// `true` when a directory about to be walked lies inside the effective
/// output root, so the walk must skip it.
pub fn effective_output_excluded_from_walk(effective_output_root: &str, candidate_dir: &str) -> (r: bool)
    ensures
        r == path_has_prefix(candidate_dir@, effective_output_root@),
        candidate_dir@ == effective_output_root@ ==> r,
{
    is_descendant(effective_output_root, candidate_dir)
}

/// Checks an include/embed/toc target. `resolved` is the canonical form of
/// the base directory joined with `target` (resolution needs the file
/// system; the caller does it). Absolute targets are refused first, then any
/// target that resolves outside `declared_root`.
pub fn guard_target(declared_root: &str, target: &str, resolved: &str) -> (r: Result<String, PathGuardError>)
    ensures
        path_absolute(target@) ==> (r matches Err(PathGuardError::AbsoluteTarget { path })
            && path@ == target@),
        !path_absolute(target@) && !path_has_prefix(resolved@, declared_root@) ==> (r matches Err(
            PathGuardError::EscapesRoot { path, root },
        ) && path@ == resolved@ && root@ == declared_root@),
        !path_absolute(target@) && path_has_prefix(resolved@, declared_root@) ==> (r matches Ok(p)
            && p@ == resolved@),
{
    if path_is_absolute(target) {
        return Err(PathGuardError::AbsoluteTarget { path: String::from_str(target) });
    }
    if !is_descendant(declared_root, resolved) {
        return Err(
            PathGuardError::EscapesRoot {
                path: String::from_str(resolved),
                root: String::from_str(declared_root),
            },
        );
    }
    Ok(String::from_str(resolved))
}

/// No path occurs twice.
pub open spec fn no_repeats(s: Seq<Seq<char>>) -> bool {
    forall|i: int, j: int| 0 <= i < j < s.len() ==> s[i] != s[j]
}

/// The chain of includes currently being expanded, outermost first.
#[derive(Debug, Clone, PartialEq, Eq)]
pub struct IncludeChain {
    stack: Vec<String>,
}

impl View for IncludeChain {
    type V = Seq<Seq<char>>;

    closed spec fn view(&self) -> Seq<Seq<char>> {
        strs(self.stack@)
    }
}

impl IncludeChain {
    /// The chain is never deeper than the cap and never holds a path twice.
    pub open spec fn wf(&self) -> bool {
        self@.len() <= MAX_INCLUDE_DEPTH && no_repeats(self@)
    }

    /// An empty chain.
    pub fn new() -> (c: IncludeChain)
        ensures
            c@ == Seq::<Seq<char>>::empty(),
            c.wf(),
    {
        let c = IncludeChain { stack: Vec::new() };
        assert(c@ =~= Seq::<Seq<char>>::empty());
        c
    }

    /// Current nesting depth.
    pub fn depth(&self) -> (n: usize)
        ensures
            n == self@.len(),
    {
        self.stack.len()
    }

    /// Enters `canonical_target`: refused when the chain is already at the
    /// depth cap, or when the target is already on the chain (a cycle).
    pub fn push(&mut self, canonical_target: String) -> (r: Result<(), PathGuardError>)
        requires
            old(self).wf(),
        ensures
            old(self)@.len() >= MAX_INCLUDE_DEPTH ==> (r == Err::<(), PathGuardError>(
                PathGuardError::DepthExceeded { depth: (old(self)@.len() + 1) as usize, max: MAX_INCLUDE_DEPTH },
            ) && final(self)@ == old(self)@),
            old(self)@.len() < MAX_INCLUDE_DEPTH && old(self)@.contains(canonical_target@) ==> (r matches Err(
                PathGuardError::IncludeCycle { path },
            ) && path@ == canonical_target@ && final(self)@ == old(self)@),
            old(self)@.len() < MAX_INCLUDE_DEPTH && !old(self)@.contains(canonical_target@) ==> (r is Ok
                && final(self)@ == old(self)@.push(canonical_target@)),
            final(self).wf(),
    {
        if self.stack.len() >= MAX_INCLUDE_DEPTH {
            return Err(
                PathGuardError::DepthExceeded { depth: self.stack.len() + 1, max: MAX_INCLUDE_DEPTH },
            );
        }
        let mut k: usize = 0;
        while k < self.stack.len()
            invariant
                k <= self.stack@.len(),
                *self == *old(self),
                self.stack@.len() < MAX_INCLUDE_DEPTH,
                no_repeats(self@),
                self@ == strs(self.stack@),
                forall|m: int| 0 <= m < k ==> self.stack@[m]@ != canonical_target@,
            decreases self.stack.len() - k,
        {
            if self.stack[k] == canonical_target {
                assert(self@[k as int] == canonical_target@);
                return Err(PathGuardError::IncludeCycle { path: canonical_target });
            }
            k = k + 1;
        }
        assert(!self@.contains(canonical_target@)) by {
            assert forall|m: int| 0 <= m < self@.len() implies self@[m] != canonical_target@ by {
                assert(self@[m] == self.stack@[m]@);
            }
        }
        let ghost prev = self@;
        let mut stack: Vec<String> = Vec::new();
        std::mem::swap(&mut stack, &mut self.stack);
        stack.push(canonical_target);
        assert(strs(stack@) =~= prev.push(canonical_target@));
        self.stack = stack;
        Ok(())
    }

    /// What `push` would answer for `canonical_target`, without entering it.
    pub fn check_push(&self, canonical_target: &String) -> (r: Result<(), PathGuardError>)
        requires
            self.wf(),
        ensures
            self@.len() >= MAX_INCLUDE_DEPTH ==> (r == Err::<(), PathGuardError>(
                PathGuardError::DepthExceeded { depth: (self@.len() + 1) as usize, max: MAX_INCLUDE_DEPTH },
            )),
            self@.len() < MAX_INCLUDE_DEPTH && self@.contains(canonical_target@) ==> (r matches Err(
                PathGuardError::IncludeCycle { path },
            ) && path@ == canonical_target@),
            self@.len() < MAX_INCLUDE_DEPTH && !self@.contains(canonical_target@) ==> r is Ok,
    {
        if self.stack.len() >= MAX_INCLUDE_DEPTH {
            return Err(
                PathGuardError::DepthExceeded { depth: self.stack.len() + 1, max: MAX_INCLUDE_DEPTH },
            );
        }
        let mut k: usize = 0;
        while k < self.stack.len()
            invariant
                k <= self.stack@.len(),
                self.stack@.len() < MAX_INCLUDE_DEPTH,
                self@ == strs(self.stack@),
                forall|m: int| 0 <= m < k ==> self.stack@[m]@ != canonical_target@,
            decreases self.stack.len() - k,
        {
            if self.stack[k] == *canonical_target {
                assert(self@[k as int] == canonical_target@);
                return Err(PathGuardError::IncludeCycle { path: canonical_target.clone() });
            }
            k = k + 1;
        }
        assert(!self@.contains(canonical_target@)) by {
            assert forall|m: int| 0 <= m < self@.len() implies self@[m] != canonical_target@ by {
                assert(self@[m] == self.stack@[m]@);
            }
        }
        Ok(())
    }

    /// Leaves the innermost include.
    pub fn pop(&mut self)
        ensures
            old(self)@.len() > 0 ==> final(self)@ == old(self)@.drop_last(),
            old(self)@.len() == 0 ==> final(self)@ == old(self)@,
            old(self).wf() ==> final(self).wf(),
    {
        let ghost prev = self@;
        let mut stack: Vec<String> = Vec::new();
        std::mem::swap(&mut stack, &mut self.stack);
        stack.pop();
        assert(strs(stack@) =~= if prev.len() > 0 { prev.drop_last() } else { prev });
        self.stack = stack;
    }
}

/// Law: entering an include and leaving it again restores the chain.
pub proof fn lemma_push_pop_restores(before: Seq<Seq<char>>, target: Seq<char>)
    requires
        before.len() < MAX_INCLUDE_DEPTH,
        !before.contains(target),
    ensures
        before.push(target).drop_last() == before,
        no_repeats(before) ==> no_repeats(before.push(target)),
{
    assert(before.push(target).drop_last() =~= before);
}

} // verus!
