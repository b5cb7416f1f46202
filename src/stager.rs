//! The decisions of one staging run: whether staging is safe at all, and
//! which mark files to add to the index, in which order.

use vstd::prelude::*;

use crate::status::{
    any_staged, filter_by_paths, has_staged_changes, is_listed, is_marked, is_staged,
    marked_entries, StatusEntry, StatusFlags, INDEX_MODIFIED, WT_MODIFIED,
};

verus! {

/// Why a run stopped with an error.
#[derive(Debug)]
pub enum StageError {
    /// A mark file has a status other than exactly "modified in the working
    /// tree".
    UnexpectedStatus { path: String, status: StatusFlags },
}

/// How a run ends.
#[derive(Debug)]
pub enum Outcome {
    /// Every mark file with a change was staged.
    Staged,
    /// The index already holds changes: nothing is staged.
    AbortedDirtyIndex,
    /// No mark file has a change: nothing is staged.
    AbortedNoMarkFiles,
    /// Staging stopped at a mark file; the paths staged before it stay staged.
    Failed(StageError),
}

/// What a run does: the paths to add to the index, in this order, and how the
/// run ends once they are added.
#[derive(Debug)]
pub struct StagingPlan {
    pub to_stage: Vec<String>,
    pub outcome: Outcome,
}

/// How a run ends, as a mathematical value.
pub enum Verdict {
    Staged,
    DirtyIndex,
    NoMarkFiles,
    Unexpected(Seq<char>, StatusFlags),
}

/// The path of an entry, or the empty sequence where it has none.
pub open spec fn path_of(e: StatusEntry) -> Seq<char> {
    match e.path {
        Some(p) => p@,
        None => Seq::empty(),
    }
}

/// The flags are exactly "modified in the working tree", and nothing else.
pub open spec fn is_only_wt_modified(s: StatusFlags) -> bool {
    s.bits == WT_MODIFIED
}

/// The length of the longest prefix of `f` whose entries are all exactly
/// "modified in the working tree".
pub open spec fn stageable_prefix_len(f: Seq<StatusEntry>) -> nat
    decreases f.len(),
{
    if f.len() == 0 || !is_only_wt_modified(f[0].status) {
        0
    } else {
        1 + stageable_prefix_len(f.drop_first())
    }
}

/// The paths that a run on report `s` with allow-list `allow` stages, in order.
pub open spec fn decided_paths(s: Seq<StatusEntry>, allow: Seq<String>) -> Seq<Seq<char>> {
    if any_staged(s) {
        Seq::empty()
    } else {
        let f = marked_entries(s, allow);
        f.take(stageable_prefix_len(f) as int).map_values(|e: StatusEntry| path_of(e))
    }
}

/// How a run on report `s` with allow-list `allow` ends.
pub open spec fn decided_verdict(s: Seq<StatusEntry>, allow: Seq<String>) -> Verdict {
    if any_staged(s) {
        Verdict::DirtyIndex
    } else {
        let f = marked_entries(s, allow);
        let k = stageable_prefix_len(f) as int;
        if f.len() == 0 {
            Verdict::NoMarkFiles
        } else if k == f.len() {
            Verdict::Staged
        } else {
            Verdict::Unexpected(path_of(f[k]), f[k].status)
        }
    }
}

impl StagingPlan {
    /// The paths to stage, as character sequences.
    pub open spec fn staged_paths(self) -> Seq<Seq<char>> {
        self.to_stage@.map_values(|p: String| p@)
    }

    /// How the run ends, as a mathematical value.
    pub open spec fn verdict(self) -> Verdict {
        match self.outcome {
            Outcome::Staged => Verdict::Staged,
            Outcome::AbortedDirtyIndex => Verdict::DirtyIndex,
            Outcome::AbortedNoMarkFiles => Verdict::NoMarkFiles,
            Outcome::Failed(StageError::UnexpectedStatus { path, status }) => Verdict::Unexpected(
                path@,
                status,
            ),
        }
    }
}

impl Outcome {
    /// Whether the run counts as a success: staging done, or a safe abort.
    pub fn is_success(&self) -> (r: bool)
        ensures
            r == !(self is Failed),
    {
        match self {
            Outcome::Failed(_) => false,
            _ => true,
        }
    }
}

proof fn lemma_prefix_len(f: Seq<StatusEntry>, i: int)
    requires
        0 <= i <= f.len(),
        forall|j: int| 0 <= j < i ==> is_only_wt_modified(#[trigger] f[j].status),
        i == f.len() || !is_only_wt_modified(f[i].status),
    ensures
        stageable_prefix_len(f) == i,
    decreases i,
{
    if i > 0 {
        let g = f.drop_first();
        assert forall|j: int| 0 <= j < i - 1 implies is_only_wt_modified(#[trigger] g[j].status) by {
            assert(g[j] == f[j + 1]);
        }
        if i < f.len() {
            assert(g[i - 1] == f[i]);
        }
        assert(is_only_wt_modified(f[0].status));
        lemma_prefix_len(g, i - 1);
    }
}

/// Decides a staging run on the status report `statuses` with the allow-list
/// `allow`.
///
/// With changes already in the index the run aborts and stages nothing. Else
/// the mark files are the entries whose path is on the allow-list; with none
/// the run aborts and stages nothing. Else the mark files are staged in report
/// order while each is exactly "modified in the working tree"; the first that
/// is not stops the run with an error, after those before it.
pub fn plan_staging(statuses: &[StatusEntry], allow: &[String]) -> (r: StagingPlan)
    ensures
        r.staged_paths() == decided_paths(statuses@, allow@),
        r.verdict() == decided_verdict(statuses@, allow@),
{
    if has_staged_changes(statuses) {
        return StagingPlan { to_stage: Vec::new(), outcome: Outcome::AbortedDirtyIndex };
    }
    let marked = filter_by_paths(statuses, allow);
    let ghost f = marked@;
    if marked.len() == 0 {
        assert(f.take(0) =~= Seq::<StatusEntry>::empty());
        return StagingPlan { to_stage: Vec::new(), outcome: Outcome::AbortedNoMarkFiles };
    }
    let mut to_stage: Vec<String> = Vec::new();
    let mut i: usize = 0;
    while i < marked.len()
        invariant
            f == marked@,
            f == marked_entries(statuses@, allow@),
            !any_staged(statuses@),
            0 <= i <= f.len(),
            forall|j: int| 0 <= j < i ==> is_only_wt_modified(#[trigger] f[j].status),
            to_stage@.len() == i,
            to_stage@.map_values(|p: String| p@) == f.take(i as int).map_values(
                |e: StatusEntry| path_of(e),
            ),
        decreases f.len() - i,
    {
        let e = &marked[i];
        proof {
            statuses@.lemma_filter_pred(|e: StatusEntry| is_marked(e, allow@), i as int);
        }
        let p = match &e.path {
            Some(p) => p,
            None => vstd::pervasive::unreached(),
        };
        if e.status.bits != WT_MODIFIED {
            proof {
                lemma_prefix_len(f, i as int);
            }
            return StagingPlan {
                to_stage,
                outcome: Outcome::Failed(
                    StageError::UnexpectedStatus { path: p.clone(), status: e.status },
                ),
            };
        }
        let ghost before = to_stage@;
        to_stage.push(p.clone());
        proof {
            let m = to_stage@.map_values(|p: String| p@);
            let n = f.take(i as int + 1).map_values(|e: StatusEntry| path_of(e));
            assert forall|j: int| 0 <= j < i implies m[j] == n[j] by {
                assert(to_stage@[j] == before[j]);
                assert(before.map_values(|p: String| p@)[j] == f.take(i as int).map_values(
                    |e: StatusEntry| path_of(e),
                )[j]);
            }
            assert(m[i as int] == n[i as int]);
            assert(to_stage@.map_values(|p: String| p@) =~= f.take(i as int + 1).map_values(
                |e: StatusEntry| path_of(e),
            ));
        }
        i = i + 1;
    }
    proof {
        lemma_prefix_len(f, f.len() as int);
    }
    StagingPlan { to_stage, outcome: Outcome::Staged }
}

proof fn lemma_prefix_all(f: Seq<StatusEntry>)
    ensures
        stageable_prefix_len(f) <= f.len(),
        forall|j: int|
            0 <= j < stageable_prefix_len(f) ==> is_only_wt_modified(#[trigger] f[j].status),
    decreases f.len(),
{
    if f.len() > 0 && is_only_wt_modified(f[0].status) {
        let g = f.drop_first();
        lemma_prefix_all(g);
        assert forall|j: int| 0 <= j < stageable_prefix_len(f) implies is_only_wt_modified(
            #[trigger] f[j].status,
        ) by {
            if j > 0 {
                assert(f[j] == g[j - 1]);
            }
        }
    }
}

/// A run stages only paths on the allow-list, and each of them is the path of
/// an entry of the report whose status is exactly "modified in the working
/// tree".
pub proof fn lemma_stages_only_listed_modified(s: Seq<StatusEntry>, allow: Seq<String>)
    ensures
        forall|j: int|
            0 <= j < decided_paths(s, allow).len() ==> {
                &&& is_listed(#[trigger] decided_paths(s, allow)[j], allow)
                &&& exists|i: int|
                    0 <= i < s.len() && s[i].path is Some && path_of(#[trigger] s[i])
                        == decided_paths(s, allow)[j] && is_only_wt_modified(s[i].status)
            },
{
    if !any_staged(s) {
        let f = marked_entries(s, allow);
        let pred = |e: StatusEntry| is_marked(e, allow);
        lemma_prefix_all(f);
        assert forall|j: int| 0 <= j < decided_paths(s, allow).len() implies is_listed(
            #[trigger] decided_paths(s, allow)[j],
            allow,
        ) && exists|i: int|
            0 <= i < s.len() && s[i].path is Some && path_of(#[trigger] s[i]) == decided_paths(
                s,
                allow,
            )[j] && is_only_wt_modified(s[i].status) by {
            s.lemma_filter_pred(pred, j);
            assert(f.contains(f[j]));
            s.lemma_filter_contains_rev(pred, f[j]);
            let i = choose|i: int| 0 <= i < s.len() && s[i] == f[j];
            assert(decided_paths(s, allow)[j] == path_of(f[j]));
            assert(path_of(s[i]) == decided_paths(s, allow)[j]);
        }
    }
}

/// The report as the index shows it once `paths` are staged: each entry whose
/// path is among them and whose status was exactly "modified in the working
/// tree" is then exactly "modified in the index".
pub open spec fn after_staging(s: Seq<StatusEntry>, paths: Seq<Seq<char>>) -> Seq<StatusEntry> {
    s.map_values(
        |e: StatusEntry|
            if e.path is Some && paths.contains(path_of(e)) && is_only_wt_modified(e.status) {
                StatusEntry { path: e.path, status: StatusFlags { bits: INDEX_MODIFIED } }
            } else {
                e
            },
    )
}

/// Running again after a run that staged all its mark files, on the report
/// as it then stands, stages nothing: the index is no longer clean, so the
/// second run aborts without error.
pub proof fn lemma_second_run_aborts(s: Seq<StatusEntry>, allow: Seq<String>)
    requires
        decided_verdict(s, allow) == Verdict::Staged,
    ensures
        decided_verdict(after_staging(s, decided_paths(s, allow)), allow) == Verdict::DirtyIndex,
        decided_paths(after_staging(s, decided_paths(s, allow)), allow).len() == 0,
{
    let f = marked_entries(s, allow);
    let pred = |e: StatusEntry| is_marked(e, allow);
    let paths = decided_paths(s, allow);
    let s2 = after_staging(s, paths);
    lemma_prefix_all(f);
    s.lemma_filter_pred(pred, 0);
    assert(f.contains(f[0]));
    s.lemma_filter_contains_rev(pred, f[0]);
    let i = choose|i: int| 0 <= i < s.len() && s[i] == f[0];
    assert(paths[0] == path_of(f[0]));
    assert(paths.contains(path_of(s[i])));
    assert(s2[i].status.bits == INDEX_MODIFIED);
    assert((2u32 & (1u32 | 2u32 | 4u32 | 8u32 | 16u32)) != 0u32) by (bit_vector);
    assert(is_staged(s2[i].status));
    assert(any_staged(s2));
}

} // verus!
