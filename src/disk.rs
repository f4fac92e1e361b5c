use vstd::prelude::*;
use crate::error::PathPair;
use crate::rename::{next, ActionView, EntryKind, EventView, RenameState, StepView};

verus! {

/// An entry on a disk: what it is, and an abstract value for its content
/// (for a directory, everything below it).
pub struct Node {
    pub kind: EntryKind,
    pub content: int,
}

/// A disk: the entries present, by path.
pub type Disk = Map<Seq<char>, Node>;

/// No entry on the disk is of kind `Absent`.
pub open spec fn disk_wf(d: Disk) -> bool {
    forall|p: Seq<char>| #[trigger] d.contains_key(p) ==> d[p].kind != EntryKind::Absent
}

/// What `p` names on `d`.
pub open spec fn kind_at(d: Disk, p: Seq<char>) -> EntryKind {
    if d.contains_key(p) {
        d[p].kind
    } else {
        EntryKind::Absent
    }
}

/// The empty file that `CreateTemp` makes.
pub open spec fn placeholder() -> Node {
    Node { kind: EntryKind::File, content: 0 }
}

/// A well-behaved filesystem, on disk `d`, answers action `a` with `e` and
/// is left as `d2`. A temporary file gets a path that was free; a removal
/// or a rename that the platform allows succeeds.
pub open spec fn answers(d: Disk, a: ActionView, e: EventView, d2: Disk) -> bool {
    match a {
        ActionView::Probe(p) => e == EventView::Probed(kind_at(d, p)) && d2 == d,
        ActionView::CreateTemp(dir, prefix) => match e {
            EventView::TempCreated(t) => !d.contains_key(t) && d2 == d.insert(t, placeholder()),
            _ => false,
        },
        ActionView::RemoveFile(p) => {
            &&& d.contains_key(p)
            &&& d[p].kind != EntryKind::Directory
            &&& e == EventView::Completed
            &&& d2 == d.remove(p)
        },
        ActionView::RemoveDirAll(p) => {
            &&& d.contains_key(p)
            &&& d[p].kind == EntryKind::Directory
            &&& e == EventView::Completed
            &&& d2 == d.remove(p)
        },
        ActionView::Rename(from, to) => {
            &&& d.contains_key(from)
            &&& (!d.contains_key(to) || (d[to].kind == EntryKind::File && d[from].kind == EntryKind::File))
            &&& e == EventView::Completed
            &&& d2 == d.remove(from).insert(to, d[from])
        },
    }
}

/// `events` drive the engine from state `s`, whose last step was `step`,
/// each event being a well-behaved filesystem's answer to the action asked
/// for, with `disks` the disk before each event and after the last.
pub open spec fn valid_run(s: RenameState, step: StepView, events: Seq<EventView>, disks: Seq<Disk>) -> bool
    decreases events.len(),
{
    &&& disks.len() == events.len() + 1
    &&& events.len() > 0 ==> {
        &&& step matches StepView::Perform(a) && answers(disks[0], a, events[0], disks[1])
        &&& valid_run(next(s, events[0]).0, next(s, events[0]).1, events.drop_first(), disks.drop_first())
    }
}

/// The engine's state and last step after `events`.
pub open spec fn run_end(s: RenameState, step: StepView, events: Seq<EventView>) -> (RenameState, StepView)
    decreases events.len(),
{
    if events.len() == 0 {
        (s, step)
    } else {
        run_end(next(s, events[0]).0, next(s, events[0]).1, events.drop_first())
    }
}

/// The sources of `pairs`.
pub open spec fn sources(pairs: Seq<PathPair>) -> Seq<Seq<char>> {
    pairs.map_values(|p: PathPair| p.0)
}

/// The targets of `pairs`.
pub open spec fn targets(pairs: Seq<PathPair>) -> Seq<Seq<char>> {
    pairs.map_values(|p: PathPair| p.1)
}

/// Each pair turned around: its target first, its source second.
pub open spec fn reversed(pairs: Seq<PathPair>) -> Seq<PathPair> {
    pairs.map_values(|p: PathPair| (p.1, p.0))
}

/// `pairs` can all be renamed on `d`: the sources are distinct and present,
/// the targets are distinct and each is free or is one of the sources,
/// and every path of a pair lies in a directory.
pub open spec fn renamable(pairs: Seq<PathPair>, d: Disk) -> bool {
    &&& disk_wf(d)
    &&& sources(pairs).no_duplicates()
    &&& targets(pairs).no_duplicates()
    &&& forall|i: int| 0 <= i < pairs.len() ==> d.contains_key(#[trigger] pairs[i].0)
    &&& forall|i: int| 0 <= i < pairs.len() && d.contains_key(#[trigger] pairs[i].1) ==> sources(pairs).contains(pairs[i].1)
    &&& forall|i: int| 0 <= i < pairs.len() ==> (#[trigger] crate::path::parent_of(pairs[i].1)) is Some
    &&& forall|i: int| 0 <= i < pairs.len() ==> (#[trigger] crate::path::parent_of(pairs[i].0)) is Some
}

/// Every temporary path handed out during `events` differs from the paths
/// that `pairs` name.
pub open spec fn temps_avoid(pairs: Seq<PathPair>, events: Seq<EventView>) -> bool {
    forall|k: int|
        0 <= k < events.len() ==> (#[trigger] events[k] matches EventView::TempCreated(t) ==> !sources(pairs).contains(t)
            && !targets(pairs).contains(t))
}

/// `d` is `d0` after each source of `pairs` was moved to its target.
pub open spec fn is_moved(d: Disk, d0: Disk, pairs: Seq<PathPair>) -> bool {
    &&& forall|p: Seq<char>| #[trigger] d.contains_key(p) <==> ((d0.contains_key(p) && !sources(pairs).contains(p)) || targets(pairs).contains(p))
    &&& forall|j: int| 0 <= j < pairs.len() ==> d[#[trigger] pairs[j].1] == d0[pairs[j].0]
    &&& forall|p: Seq<char>| d0.contains_key(p) && !sources(pairs).contains(p) ==> #[trigger] d[p] == d0[p]
}


/// The engine's state and last step after an execution of `pairs` under
/// `mode` driven by `events`.
pub open spec fn execution(pairs: Seq<PathPair>, mode: crate::rename::RenameOverwriteMode, events: Seq<EventView>) -> (RenameState, StepView) {
    run_end(
        crate::rename::start(crate::rename::initial_state(pairs), mode).0,
        crate::rename::start(crate::rename::initial_state(pairs), mode).1,
        events,
    )
}

/// `events` drive a whole execution of `pairs` under `mode` to its end,
/// each answering the action asked for on a well-behaved filesystem whose
/// disk goes through `disks`.
pub open spec fn finished_execution(
    pairs: Seq<PathPair>,
    mode: crate::rename::RenameOverwriteMode,
    events: Seq<EventView>,
    disks: Seq<Disk>,
) -> bool {
    &&& valid_run(
        crate::rename::start(crate::rename::initial_state(pairs), mode).0,
        crate::rename::start(crate::rename::initial_state(pairs), mode).1,
        events,
        disks,
    )
    &&& execution(pairs, mode, events).1 is Finished
}

} // verus!
