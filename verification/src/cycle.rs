//! One iteration of the watcher: candidates from the scan are put in saved
//! order, new ones are recorded, and the cycle's outward effects — the one
//! dispatch and the persisted image — are fixed as values. The caller
//! launches the dispatch and writes the image; the loop around the cycles
//! sleeps and scans.
use vstd::prelude::*;

verus! {

use crate::file_list::FileList;
use crate::file_list::new_batch;
use crate::file_list::lemma_sort_paths_same_set;
use crate::file_list::sort_paths;
use crate::file_list::sort_paths_exec;
use crate::processor::Processor;
use crate::processor::split_ws;
use crate::text::join_lines;

/// What one cycle decided: the argument vector to launch once, if any file
/// was new, and the image to persist, exactly when the set grew.
pub struct CycleOutcome {
    /// Program name and arguments of the one dispatch, `None` when nothing
    /// was new.
    pub dispatch: Option<Vec<String>>,
    /// The new persisted image, `None` when nothing changed.
    pub save_contents: Option<String>,
}

/// Runs the decision part of one cycle over the scanned candidates: sorts
/// them into saved order for deterministic dispatch, records the new ones,
/// and reports the dispatch and the image to persist. Dispatch and
/// persistence happen exactly when at least one candidate was new.
pub fn run_cycle(file_list: &mut FileList, processor: &Processor, candidates: &Vec<String>) -> (r:
    CycleOutcome)
    requires
        old(file_list).wf(),
        processor.wf(),
    ensures
        final(file_list).wf(),
        final(file_list).file_name == old(file_list).file_name,
        final(file_list).prefixes == old(file_list).prefixes,
        final(file_list).known() == old(file_list).known().union(
            candidates.deep_view().to_set(),
        ),
        old(file_list).known().subset_of(final(file_list).known()),
        ({
            let sorted = sort_paths(candidates.deep_view(), old(file_list).prefixes.deep_view());
            let batch = new_batch(old(file_list).known(), sorted);
            &&& (match r.dispatch {
                Option::Some(argv) => batch.len() > 0 && argv.deep_view() == split_ws(
                    processor.command@,
                ) + batch,
                Option::None => batch.len() == 0,
            })
            &&& (match r.save_contents {
                Option::Some(c) => batch.len() > 0 && c@ == join_lines(
                    sort_paths(
                        final(file_list).files.deep_view(),
                        old(file_list).prefixes.deep_view(),
                    ),
                ),
                Option::None => batch.len() == 0,
            })
        }),
{
    let sorted = sort_paths_exec(candidates, file_list.prefixes.as_slice());
    proof {
        lemma_sort_paths_same_set(candidates.deep_view(), file_list.prefixes.deep_view());
    }
    let (changed, dispatch) = file_list.update(&sorted, processor);
    if changed {
        let contents = file_list.save();
        CycleOutcome { dispatch, save_contents: Option::Some(contents) }
    } else {
        CycleOutcome { dispatch, save_contents: Option::None }
    }
}

} // verus!
