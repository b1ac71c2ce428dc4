//! Batch planning: one poll cycle over a directory listing.
//!
//! [`plan_batch`] classifies every entry of a listing independently and
//! returns the full plan: one [`Relocation`] per classifiable entry, in
//! listing order, and one [`Failure`] per malformed entry. No entry's outcome
//! depends on its siblings, so one bad file never keeps a good one from being
//! relocated; the caller carries out the relocations and reports the
//! failures. The planning itself touches no filesystem.

use vstd::prelude::*;
use crate::error::ProcessError;
use crate::classify::extract_dst_path;
use crate::model::{spec_file_name, spec_classify, spec_destination, spec_extract_dst_path};

verus! {

/// One planned relocation: copy `source` to `destination`, then delete
/// `source`. A later plan for the same filename yields the same destination
/// and overwrites the earlier archive copy.
#[derive(Debug, Clone)]
pub struct Relocation {
    /// The source path, as it stood in the listing.
    pub source: String,
    /// The archive destination derived from the source's file name.
    pub destination: String,
}

impl View for Relocation {
    type V = (Seq<char>, Seq<char>);

    open spec fn view(&self) -> Self::V {
        (self.source@, self.destination@)
    }
}

impl DeepView for Relocation {
    type V = (Seq<char>, Seq<char>);

    open spec fn deep_view(&self) -> Self::V {
        self.view()
    }
}

/// One entry that could not be classified, with the error it failed on. The
/// source file is left untouched.
#[derive(Debug, Clone)]
pub struct Failure {
    /// The source path, as it stood in the listing.
    pub source: String,
    /// Why its file name was rejected.
    pub error: ProcessError,
}

impl View for Failure {
    type V = (Seq<char>, ProcessError);

    open spec fn view(&self) -> Self::V {
        (self.source@, self.error)
    }
}

impl DeepView for Failure {
    type V = (Seq<char>, ProcessError);

    open spec fn deep_view(&self) -> Self::V {
        self.view()
    }
}

/// The outcome of planning one listing: the relocations to carry out and the
/// entries that were rejected, each in listing order.
#[derive(Debug, Clone)]
pub struct BatchPlan {
    pub relocations: Vec<Relocation>,
    pub failures: Vec<Failure>,
}

/// The relocations a listing gives rise to: for each entry whose file name
/// classifies, in order, the pair of its source path and its destination.
pub open spec fn spec_relocations(paths: Seq<Seq<char>>, target: Seq<char>) -> Seq<
    (Seq<char>, Seq<char>),
>
    decreases paths.len(),
{
    if paths.len() == 0 {
        Seq::empty()
    } else {
        let rest = spec_relocations(paths.drop_last(), target);
        let p = paths.last();
        match spec_classify(spec_file_name(p)) {
            Ok(c) => rest.push((p, spec_destination(target, c))),
            Err(_) => rest,
        }
    }
}

/// The failures a listing gives rise to: for each entry whose file name is
/// rejected, in order, the pair of its source path and its error.
pub open spec fn spec_failures(paths: Seq<Seq<char>>) -> Seq<(Seq<char>, ProcessError)>
    decreases paths.len(),
{
    if paths.len() == 0 {
        Seq::empty()
    } else {
        let rest = spec_failures(paths.drop_last());
        let p = paths.last();
        match spec_classify(spec_file_name(p)) {
            Ok(_) => rest,
            Err(e) => rest.push((p, e)),
        }
    }
}

/// Plans one poll cycle: classifies every entry of `paths` against the
/// `target` root, independently of its siblings, and returns the relocations
/// of all classifiable entries together with the failures of the rest, both
/// in listing order.
pub fn plan_batch(paths: &Vec<String>, target: &str) -> (plan: BatchPlan)
    ensures
        plan.relocations.deep_view() == spec_relocations(paths.deep_view(), target@),
        plan.failures.deep_view() == spec_failures(paths.deep_view()),
{
    let mut relocations: Vec<Relocation> = Vec::new();
    let mut failures: Vec<Failure> = Vec::new();
    let ghost all = paths.deep_view();

    let n = paths.len();
    let mut i: usize = 0;
    while i < n
        invariant
            i <= n == paths.len(),
            all == paths.deep_view(),
            relocations.deep_view() == spec_relocations(all.take(i as int), target@),
            failures.deep_view() == spec_failures(all.take(i as int)),
        decreases n - i,
    {
        let path = &paths[i];
        proof {
            assert(all.take(i + 1).drop_last() =~= all.take(i as int));
            assert(all.take(i + 1).last() == path@);
        }
        match extract_dst_path(path.as_str(), target) {
            Ok(t) => {
                let (_, destination) = t;
                relocations.push(Relocation { source: path.clone(), destination });
                proof {
                    assert(relocations.deep_view() =~= spec_relocations(
                        all.take(i + 1),
                        target@,
                    ));
                }
            },
            Err(e) => {
                failures.push(Failure { source: path.clone(), error: e });
                proof {
                    assert(failures.deep_view() =~= spec_failures(all.take(i + 1)));
                }
            },
        }
        i = i + 1;
    }
    proof {
        assert(all.take(n as int) =~= all);
    }
    BatchPlan { relocations, failures }
}

/// An entry's planned outcome depends on its path alone, never on the pass
/// it is seen in or on its siblings: relocating the same filename twice — as
/// after a failed delete — derives the same destination both times, so the
/// second pass overwrites the first's archive copy rather than adding one.
pub proof fn lemma_relocation_idempotent(
    first_pass: Seq<Seq<char>>,
    second_pass: Seq<Seq<char>>,
    i: int,
    j: int,
    target: Seq<char>,
)
    requires
        0 <= i < first_pass.len(),
        0 <= j < second_pass.len(),
        first_pass[i] == second_pass[j],
    ensures
        spec_extract_dst_path(first_pass[i], target) == spec_extract_dst_path(
            second_pass[j],
            target,
        ),
{
}

/// Every classifiable entry of a listing is planned for relocation, to its
/// own destination, whatever the other entries look like: one malformed
/// sibling never costs a valid file its relocation.
pub proof fn lemma_batch_relocates_valid_entries(
    paths: Seq<Seq<char>>,
    target: Seq<char>,
    i: int,
)
    requires
        0 <= i < paths.len(),
        spec_classify(spec_file_name(paths[i])) is Ok,
    ensures
        spec_relocations(paths, target).contains(
            (paths[i], spec_destination(target, spec_classify(spec_file_name(paths[i]))->Ok_0)),
        ),
    decreases paths.len(),
{
    let entry = (paths[i], spec_destination(target, spec_classify(spec_file_name(paths[i]))->Ok_0));
    if i == paths.len() - 1 {
        let rest = spec_relocations(paths.drop_last(), target);
        assert(spec_relocations(paths, target) == rest.push(entry));
        assert(rest.push(entry)[rest.len() as int] == entry);
    } else {
        assert(paths.drop_last()[i] == paths[i]);
        lemma_batch_relocates_valid_entries(paths.drop_last(), target, i);
        let rest = spec_relocations(paths.drop_last(), target);
        let k = choose|k: int| 0 <= k < rest.len() && rest[k] == entry;
        match spec_classify(spec_file_name(paths.last())) {
            Ok(c) => {
                assert(spec_relocations(paths, target)[k] == entry);
            },
            Err(_) => {
                assert(spec_relocations(paths, target)[k] == entry);
            },
        }
    }
}

/// Every rejected entry of a listing is reported as a failure, with the
/// error its own file name fails on, whatever the other entries look like:
/// a malformed filename is surfaced, never silently dropped.
pub proof fn lemma_batch_reports_invalid_entries(paths: Seq<Seq<char>>, i: int)
    requires
        0 <= i < paths.len(),
        spec_classify(spec_file_name(paths[i])) is Err,
    ensures
        spec_failures(paths).contains(
            (paths[i], spec_classify(spec_file_name(paths[i]))->Err_0),
        ),
    decreases paths.len(),
{
    let entry = (paths[i], spec_classify(spec_file_name(paths[i]))->Err_0);
    if i == paths.len() - 1 {
        let rest = spec_failures(paths.drop_last());
        assert(spec_failures(paths) == rest.push(entry));
        assert(rest.push(entry)[rest.len() as int] == entry);
    } else {
        assert(paths.drop_last()[i] == paths[i]);
        lemma_batch_reports_invalid_entries(paths.drop_last(), i);
        let rest = spec_failures(paths.drop_last());
        let k = choose|k: int| 0 <= k < rest.len() && rest[k] == entry;
        assert(spec_failures(paths)[k] == entry);
    }
}

} // verus!
