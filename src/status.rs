//! Status entries of a working copy, and the classification of them.

use vstd::prelude::*;

verus! {

/// Set in the index: the path is new there.
pub const INDEX_NEW: u32 = 1;

/// Set in the index: the path is modified there.
pub const INDEX_MODIFIED: u32 = 2;

/// Set in the index: the path is deleted there.
pub const INDEX_DELETED: u32 = 4;

/// Set in the index: the path is renamed there.
pub const INDEX_RENAMED: u32 = 8;

/// Set in the index: the path changed its type there.
pub const INDEX_TYPECHANGE: u32 = 16;

/// Set in the working tree: the path is new (untracked).
pub const WT_NEW: u32 = 128;

/// Set in the working tree: the path is modified.
pub const WT_MODIFIED: u32 = 256;

/// Set in the working tree: the path is deleted.
pub const WT_DELETED: u32 = 512;

/// Set in the working tree: the path changed its type.
pub const WT_TYPECHANGE: u32 = 1024;

/// Set in the working tree: the path is renamed.
pub const WT_RENAMED: u32 = 2048;

/// Every flag that records a change already in the staging index.
pub const STAGED_MASK: u32 = INDEX_NEW | INDEX_MODIFIED | INDEX_DELETED | INDEX_RENAMED
    | INDEX_TYPECHANGE;

/// The status flags of one path, with the bit layout of libgit2's
/// `git_status_t`.
#[derive(Clone, Copy, Debug, PartialEq, Eq, Structural)]
pub struct StatusFlags {
    pub bits: u32,
}

/// One entry of a status report: a path and how it differs between HEAD, the
/// index and the working tree. `path` is `None` where the path has no UTF-8
/// representation.
#[derive(Debug)]
pub struct StatusEntry {
    pub path: Option<String>,
    pub status: StatusFlags,
}

/// The flags record a change already in the staging index.
pub open spec fn is_staged(s: StatusFlags) -> bool {
    s.bits & STAGED_MASK != 0
}

/// Some entry of the report has a change already in the staging index.
pub open spec fn any_staged(s: Seq<StatusEntry>) -> bool {
    exists|i: int| 0 <= i < s.len() && is_staged(#[trigger] s[i].status)
}

/// `p` is, character for character, one of the strings of `allow`.
pub open spec fn is_listed(p: Seq<char>, allow: Seq<String>) -> bool {
    exists|j: int| 0 <= j < allow.len() && (#[trigger] allow[j])@ == p
}

/// The entry has a path, and that path is on the allow-list.
pub open spec fn is_marked(e: StatusEntry, allow: Seq<String>) -> bool {
    match e.path {
        Some(p) => is_listed(p@, allow),
        None => false,
    }
}

/// The entries of the report whose path is on the allow-list, in report order.
pub open spec fn marked_entries(s: Seq<StatusEntry>, allow: Seq<String>) -> Seq<StatusEntry> {
    s.filter(|e: StatusEntry| is_marked(e, allow))
}

impl StatusFlags {
    /// Whether these flags record a change already in the staging index.
    pub fn is_index_status(&self) -> (r: bool)
        ensures
            r == is_staged(*self),
    {
        self.bits & STAGED_MASK != 0
    }
}

impl StatusEntry {
    /// A field-by-field copy of the entry.
    pub fn copied(&self) -> (r: StatusEntry)
        ensures
            r == *self,
    {
        let path = match &self.path {
            Some(p) => Some(p.clone()),
            None => None,
        };
        StatusEntry { path, status: self.status }
    }
}

/// Whether any entry of the report has a change already in the staging
/// index; false for an empty report.
pub fn has_staged_changes(statuses: &[StatusEntry]) -> (r: bool)
    ensures
        r == any_staged(statuses@),
        statuses@.len() == 0 ==> !r,
{
    let mut i: usize = 0;
    while i < statuses.len()
        invariant
            0 <= i <= statuses@.len(),
            forall|k: int| 0 <= k < i ==> !is_staged(#[trigger] statuses@[k].status),
        decreases statuses@.len() - i,
    {
        if statuses[i].status.is_index_status() {
            return true;
        }
        i = i + 1;
    }
    false
}

/// Whether `path` equals one of the strings of `allow`.
pub fn is_listed_path(path: &String, allow: &[String]) -> (r: bool)
    ensures
        r == is_listed(path@, allow@),
{
    let mut j: usize = 0;
    while j < allow.len()
        invariant
            0 <= j <= allow@.len(),
            forall|k: int| 0 <= k < j ==> (#[trigger] allow@[k])@ != path@,
        decreases allow@.len() - j,
    {
        if allow[j] == *path {
            return true;
        }
        j = j + 1;
    }
    false
}

/// The entries of the report whose path exactly matches a string of `allow`,
/// in report order. Entries without a representable path never match.
pub fn filter_by_paths(statuses: &[StatusEntry], allow: &[String]) -> (r: Vec<StatusEntry>)
    ensures
        r@ == marked_entries(statuses@, allow@),
{
    let ghost pred = |e: StatusEntry| is_marked(e, allow@);
    let mut out: Vec<StatusEntry> = Vec::new();
    let mut i: usize = 0;
    while i < statuses.len()
        invariant
            0 <= i <= statuses@.len(),
            pred == (|e: StatusEntry| is_marked(e, allow@)),
            out@ == statuses@.take(i as int).filter(pred),
        decreases statuses@.len() - i,
    {
        let e = &statuses[i];
        let keep = match &e.path {
            Some(p) => is_listed_path(p, allow),
            None => false,
        };
        assert(keep == pred(*e));
        let ghost before = out@;
        if keep {
            out.push(e.copied());
        }
        proof {
            let next = statuses@.take(i as int + 1);
            assert(next.drop_last() == statuses@.take(i as int));
            assert(next.last() == *e);
            reveal(Seq::filter);
            assert(next.filter(pred) == (if pred(*e) { before.push(*e) } else { before }));
        }
        i = i + 1;
    }
    assert(statuses@.take(statuses@.len() as int) == statuses@);
    out
}

/// `sub` keeps some entries of `s` in their order: the entry of `sub` at `k`
/// is the entry of `s` at `idx[k]`, and the positions `idx` strictly increase.
pub open spec fn is_subsequence_at<A>(sub: Seq<A>, s: Seq<A>, idx: Seq<int>) -> bool {
    &&& idx.len() == sub.len()
    &&& forall|k: int| 0 <= k < idx.len() ==> 0 <= #[trigger] idx[k] < s.len() && sub[k] == s[idx[k]]
    &&& forall|k: int, l: int| 0 <= k < l < idx.len() ==> #[trigger] idx[k] < #[trigger] idx[l]
}

proof fn lemma_marked_entries_from(s: Seq<StatusEntry>, allow: Seq<String>) -> (idx: Seq<int>)
    ensures
        is_subsequence_at(marked_entries(s, allow), s, idx),
        forall|e: StatusEntry|
            #[trigger] marked_entries(s, allow).to_multiset().count(e) <= s.to_multiset().count(e),
    decreases s.len(),
{
    broadcast use vstd::seq_lib::group_to_multiset_ensures;

    reveal(Seq::filter);
    if s.len() == 0 {
        Seq::empty()
    } else {
        let init = s.drop_last();
        let rest = lemma_marked_entries_from(init, allow);
        let sub = marked_entries(init, allow);
        assert(s == init.push(s.last()));
        assert(s.to_multiset() == init.to_multiset().insert(s.last()));
        if is_marked(s.last(), allow) {
            let idx = rest.push(s.len() - 1);
            assert(marked_entries(s, allow) == sub.push(s.last()));
            assert(marked_entries(s, allow).to_multiset() == sub.to_multiset().insert(s.last()));
            assert forall|k: int| 0 <= k < idx.len() implies 0 <= #[trigger] idx[k] < s.len()
                && marked_entries(s, allow)[k] == s[idx[k]] by {
                if k < rest.len() {
                    assert(idx[k] == rest[k]);
                    assert(s[rest[k]] == init[rest[k]]);
                }
            }
            assert forall|k: int, l: int| 0 <= k < l < idx.len() implies #[trigger] idx[k]
                < #[trigger] idx[l] by {
                if l < rest.len() {
                    assert(idx[k] == rest[k] && idx[l] == rest[l]);
                } else {
                    assert(idx[k] == rest[k]);
                }
            }
            idx
        } else {
            assert(marked_entries(s, allow) == sub);
            assert forall|k: int| 0 <= k < rest.len() implies 0 <= #[trigger] rest[k] < s.len()
                && marked_entries(s, allow)[k] == s[rest[k]] by {
                assert(s[rest[k]] == init[rest[k]]);
            }
            rest
        }
    }
}

/// Filtering by paths keeps the report's order, keeps only entries whose path
/// is on the allow-list, and holds no entry more often than the report does.
pub proof fn lemma_filter_by_paths(s: Seq<StatusEntry>, allow: Seq<String>)
    ensures
        forall|k: int|
            0 <= k < marked_entries(s, allow).len() ==> is_marked(
                #[trigger] marked_entries(s, allow)[k],
                allow,
            ),
        exists|idx: Seq<int>| is_subsequence_at(marked_entries(s, allow), s, idx),
        forall|e: StatusEntry|
            #[trigger] marked_entries(s, allow).to_multiset().count(e) <= s.to_multiset().count(e),
{
    let idx = lemma_marked_entries_from(s, allow);
    assert forall|k: int| 0 <= k < marked_entries(s, allow).len() implies is_marked(
        #[trigger] marked_entries(s, allow)[k],
        allow,
    ) by {
        s.lemma_filter_pred(|e: StatusEntry| is_marked(e, allow), k);
    }
    assert(is_subsequence_at(marked_entries(s, allow), s, idx));
}

} // verus!
