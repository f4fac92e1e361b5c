use vstd::prelude::*;
use crate::error::{
    copy_pair, copy_pairs, outcome_view, pair_view, pairs_view, PathPair, RenameError, RenameErrorView,
    RenameMapPair,
};
use crate::path::{file_name, file_name_of, parent, parent_of};
use crate::resolve::{resolve_step, resolver_start, resolver_wf, ResolverView, TargetResolver};

verus! {

/// What to do when the final target path of a pair exists already.
#[derive(Clone, Copy, Debug, PartialEq, Eq, Structural)]
pub enum RenameOverwriteMode {
    /// Prefix the file name with underscores until the path is free.
    ChangeFileName,
    /// Replace the existing entry; the operation can then no longer be undone.
    Overwrite,
    /// Stop with `RenameError::TargetFileAlreadyExists`.
    Error,
}

/// What a path names on disk.
#[derive(Clone, Copy, Debug, PartialEq, Eq, Structural)]
pub enum EntryKind {
    Absent,
    File,
    Directory,
    Other,
}

/// A filesystem action that the engine asks its driver to perform.
#[derive(Debug)]
pub enum FsAction {
    /// Report what the path names.
    Probe(String),
    /// Create and keep a new, uniquely named empty file in `dir` whose name
    /// starts with `prefix`, and report its path.
    CreateTemp { dir: String, prefix: String },
    /// Remove the file at the path.
    RemoveFile(String),
    /// Remove the directory at the path with all its content.
    RemoveDirAll(String),
    /// Rename `from` to `to`.
    Rename { from: String, to: String },
}

/// The driver's answer to an action.
#[derive(Debug)]
pub enum FsEvent {
    /// The answer to `Probe`.
    Probed(EntryKind),
    /// The answer to `CreateTemp`: the path of the new file.
    TempCreated(String),
    /// `CreateTemp` made the file but could not keep it.
    TempNotKept,
    /// A removal or a rename succeeded.
    Completed,
    /// The action failed.
    Failed(std::io::Error),
}

/// What the engine does next.
#[derive(Debug)]
pub enum Step {
    /// Perform this action and hand the answer to `BulkRename::advance`.
    Perform(FsAction),
    /// The operation is over, with this outcome.
    Finished(Result<(), RenameError>),
}

/// The undo ledger: for each pair processed so far, where its entry is now
/// and where it came from.
#[derive(Debug)]
pub enum UndoState {
    /// The operation has not finished; these are the entries so far.
    NotYetReversible(Vec<RenameMapPair>),
    /// The operation has finished; undoing it renames these pairs.
    Reversible(Vec<RenameMapPair>),
    /// An existing entry was overwritten; the operation cannot be undone.
    Irreversible,
}

/// Where an execution stands. `index` is the pair being worked on.
#[derive(Debug)]
enum Phase {
    Idle,
    Preflight,
    StageTemp { index: usize },
    StageClear { index: usize, temp: String },
    StageMove { index: usize, temp: String },
    CommitProbe { index: usize },
    CommitSearch { index: usize, resolver: TargetResolver },
    CommitClear { index: usize, dest: String },
    CommitMove { index: usize, dest: String },
    Done,
}

/// A set of renames carried out as one operation, which can be undone
/// while no existing entry was overwritten.
#[derive(Debug)]
pub struct BulkRename {
    pub pairs: Vec<RenameMapPair>,
    undo_pairs: UndoState,
    mode: RenameOverwriteMode,
    phase: Phase,
    kinds: Vec<EntryKind>,
    temps: Vec<String>,
}

// ---------------------------------------------------------------------
// The model of the engine.

/// `FsAction` with its paths as character sequences.
pub enum ActionView {
    Probe(Seq<char>),
    CreateTemp(Seq<char>, Seq<char>),
    RemoveFile(Seq<char>),
    RemoveDirAll(Seq<char>),
    Rename(Seq<char>, Seq<char>),
}

/// `FsEvent` with its paths as character sequences.
pub enum EventView {
    Probed(EntryKind),
    TempCreated(Seq<char>),
    TempNotKept,
    Completed,
    Failed(std::io::Error),
}

/// `Step` with its paths as character sequences.
pub enum StepView {
    Perform(ActionView),
    Finished(Result<(), RenameErrorView>),
}

/// `UndoState` with its paths as character sequences.
pub enum LedgerView {
    NotYetReversible(Seq<PathPair>),
    Reversible(Seq<PathPair>),
    Irreversible,
}

/// Where an execution stands; `index` is the pair being worked on.
pub enum PhaseView {
    Idle,
    Preflight,
    StageTemp { index: nat },
    StageClear { index: nat, temp: Seq<char> },
    StageMove { index: nat, temp: Seq<char> },
    CommitProbe { index: nat },
    CommitSearch { index: nat, resolver: ResolverView },
    CommitClear { index: nat, dest: Seq<char> },
    CommitMove { index: nat, dest: Seq<char> },
    Done,
}

/// The state of a `BulkRename`: its pairs, its ledger, the policy of the
/// current execution, where that execution stands, the kinds of the sources
/// seen before anything was moved, and the temporary paths of staged pairs.
pub struct RenameState {
    pub pairs: Seq<PathPair>,
    pub ledger: LedgerView,
    pub mode: RenameOverwriteMode,
    pub phase: PhaseView,
    pub kinds: Seq<EntryKind>,
    pub temps: Seq<Seq<char>>,
}

impl View for FsAction {
    type V = ActionView;

    open spec fn view(&self) -> ActionView {
        match self {
            FsAction::Probe(p) => ActionView::Probe(p@),
            FsAction::CreateTemp { dir, prefix } => ActionView::CreateTemp(dir@, prefix@),
            FsAction::RemoveFile(p) => ActionView::RemoveFile(p@),
            FsAction::RemoveDirAll(p) => ActionView::RemoveDirAll(p@),
            FsAction::Rename { from, to } => ActionView::Rename(from@, to@),
        }
    }
}

impl View for FsEvent {
    type V = EventView;

    open spec fn view(&self) -> EventView {
        match self {
            FsEvent::Probed(k) => EventView::Probed(*k),
            FsEvent::TempCreated(p) => EventView::TempCreated(p@),
            FsEvent::TempNotKept => EventView::TempNotKept,
            FsEvent::Completed => EventView::Completed,
            FsEvent::Failed(e) => EventView::Failed(*e),
        }
    }
}

impl View for Step {
    type V = StepView;

    open spec fn view(&self) -> StepView {
        match self {
            Step::Perform(a) => StepView::Perform(a@),
            Step::Finished(r) => StepView::Finished(outcome_view(*r)),
        }
    }
}

impl View for UndoState {
    type V = LedgerView;

    open spec fn view(&self) -> LedgerView {
        match self {
            UndoState::NotYetReversible(v) => LedgerView::NotYetReversible(pairs_view(v@)),
            UndoState::Reversible(v) => LedgerView::Reversible(pairs_view(v@)),
            UndoState::Irreversible => LedgerView::Irreversible,
        }
    }
}

impl View for Phase {
    type V = PhaseView;

    closed spec fn view(&self) -> PhaseView {
        match self {
            Phase::Idle => PhaseView::Idle,
            Phase::Preflight => PhaseView::Preflight,
            Phase::StageTemp { index } => PhaseView::StageTemp { index: *index as nat },
            Phase::StageClear { index, temp } => PhaseView::StageClear { index: *index as nat, temp: temp@ },
            Phase::StageMove { index, temp } => PhaseView::StageMove { index: *index as nat, temp: temp@ },
            Phase::CommitProbe { index } => PhaseView::CommitProbe { index: *index as nat },
            Phase::CommitSearch { index, resolver } => PhaseView::CommitSearch { index: *index as nat, resolver: resolver@ },
            Phase::CommitClear { index, dest } => PhaseView::CommitClear { index: *index as nat, dest: dest@ },
            Phase::CommitMove { index, dest } => PhaseView::CommitMove { index: *index as nat, dest: dest@ },
            Phase::Done => PhaseView::Done,
        }
    }
}

impl View for BulkRename {
    type V = RenameState;

    closed spec fn view(&self) -> RenameState {
        RenameState {
            pairs: pairs_view(self.pairs@),
            ledger: self.undo_pairs@,
            mode: self.mode,
            phase: self.phase@,
            kinds: self.kinds@,
            temps: self.temps@.map_values(|t: String| t@),
        }
    }
}

/// The state of a new operation over `pairs`.
pub open spec fn initial_state(pairs: Seq<PathPair>) -> RenameState {
    RenameState {
        pairs,
        ledger: LedgerView::NotYetReversible(Seq::empty()),
        mode: RenameOverwriteMode::Error,
        phase: PhaseView::Idle,
        kinds: Seq::empty(),
        temps: Seq::empty(),
    }
}

/// For each probed kind, whether the path exists.
pub open spec fn present_of(kinds: Seq<EntryKind>) -> Seq<bool> {
    kinds.map_values(|k: EntryKind| k != EntryKind::Absent)
}

/// The pairs whose source is reported absent, in their order.
pub open spec fn missing_sources(pairs: Seq<PathPair>, present: Seq<bool>) -> Seq<PathPair>
    decreases pairs.len(),
{
    if pairs.len() == 0 {
        Seq::empty()
    } else {
        let rest = missing_sources(pairs.drop_last(), present.drop_last());
        if present.last() {
            rest
        } else {
            rest.push(pairs.last())
        }
    }
}

/// The prefix of the temporary name made for a target: its file name, if any.
pub open spec fn temp_prefix(target: Seq<char>) -> Seq<char> {
    match file_name_of(target) {
        Some(n) => n,
        None => Seq::empty(),
    }
}

/// The ledger once the operation is over.
pub open spec fn settle(l: LedgerView) -> LedgerView {
    match l {
        LedgerView::NotYetReversible(p) => LedgerView::Reversible(p),
        _ => l,
    }
}

/// The ledger with a newly staged entry.
pub open spec fn record(l: LedgerView, entry: PathPair) -> LedgerView {
    match l {
        LedgerView::NotYetReversible(p) => LedgerView::NotYetReversible(p.push(entry)),
        _ => l,
    }
}

/// The ledger with entry `i` now found at `dest`.
pub open spec fn relocate(l: LedgerView, i: nat, dest: Seq<char>) -> LedgerView {
    match l {
        LedgerView::NotYetReversible(p) => LedgerView::NotYetReversible(p.update(i as int, (dest, p[i as int].1))),
        _ => l,
    }
}

/// The state moved on to `phase`.
pub open spec fn with_phase(s: RenameState, phase: PhaseView) -> RenameState {
    RenameState { phase, ..s }
}

/// End the execution with `r`.
pub open spec fn finish(s: RenameState, r: Result<(), RenameErrorView>) -> (RenameState, StepView) {
    (RenameState { phase: PhaseView::Done, ledger: settle(s.ledger), ..s }, StepView::Finished(r))
}

/// End the execution because an answer did not fit the action.
pub open spec fn illegal(s: RenameState) -> (RenameState, StepView) {
    finish(s, Err(RenameErrorView::IllegalOperation))
}

/// Commit pair `i`, or finish when all are committed.
pub open spec fn commit(s: RenameState, i: nat) -> (RenameState, StepView) {
    if i >= s.pairs.len() {
        finish(s, Ok(()))
    } else if s.mode == RenameOverwriteMode::ChangeFileName {
        (
            with_phase(s, PhaseView::CommitSearch { index: i, resolver: resolver_start(s.pairs[i as int].1) }),
            StepView::Perform(ActionView::Probe(s.pairs[i as int].1)),
        )
    } else {
        (with_phase(s, PhaseView::CommitProbe { index: i }), StepView::Perform(ActionView::Probe(s.pairs[i as int].1)))
    }
}

/// Stage pair `i`, or start committing when all are staged.
pub open spec fn stage(s: RenameState, i: nat) -> (RenameState, StepView) {
    if i >= s.pairs.len() {
        commit(s, 0)
    } else {
        match parent_of(s.pairs[i as int].1) {
            None => illegal(s),
            Some(dir) => (
                with_phase(s, PhaseView::StageTemp { index: i }),
                StepView::Perform(ActionView::CreateTemp(dir, temp_prefix(s.pairs[i as int].1))),
            ),
        }
    }
}

/// Probe the next source, or judge the sources once all are probed.
pub open spec fn preflight(s: RenameState) -> (RenameState, StepView) {
    if s.kinds.len() < s.pairs.len() {
        (with_phase(s, PhaseView::Preflight), StepView::Perform(ActionView::Probe(s.pairs[s.kinds.len() as int].0)))
    } else {
        let missing = missing_sources(s.pairs, present_of(s.kinds));
        if missing.len() > 0 {
            finish(s, Err(RenameErrorView::SourceFileNotFound(missing)))
        } else {
            stage(s, 0)
        }
    }
}

/// Move the staged entry of pair `i` to `dest`.
pub open spec fn commit_move(s: RenameState, i: nat, dest: Seq<char>) -> (RenameState, StepView) {
    (
        with_phase(s, PhaseView::CommitMove { index: i, dest }),
        StepView::Perform(ActionView::Rename(s.temps[i as int], dest)),
    )
}

/// Starting an execution under `mode`.
pub open spec fn start(s: RenameState, mode: RenameOverwriteMode) -> (RenameState, StepView) {
    if s.phase is Idle {
        preflight(RenameState { mode, ..s })
    } else {
        (s, StepView::Finished(Err(RenameErrorView::Executed)))
    }
}

/// The engine's answer to event `e`: its next state and what it does next.
pub open spec fn next(s: RenameState, e: EventView) -> (RenameState, StepView) {
    match s.phase {
        PhaseView::Idle => (s, StepView::Finished(Err(RenameErrorView::IllegalOperation))),
        PhaseView::Done => (s, StepView::Finished(Err(RenameErrorView::Executed))),
        PhaseView::Preflight => match e {
            EventView::Probed(k) => preflight(RenameState { kinds: s.kinds.push(k), ..s }),
            _ => illegal(s),
        },
        PhaseView::StageTemp { index } => match e {
            EventView::TempCreated(t) => if s.kinds[index as int] == EntryKind::File {
                (
                    with_phase(s, PhaseView::StageMove { index, temp: t }),
                    StepView::Perform(ActionView::Rename(s.pairs[index as int].0, t)),
                )
            } else {
                (with_phase(s, PhaseView::StageClear { index, temp: t }), StepView::Perform(ActionView::RemoveFile(t)))
            },
            EventView::Failed(err) => finish(
                s,
                Err(RenameErrorView::TargetDirectoryNotWritable(s.pairs[index as int], err)),
            ),
            _ => illegal(s),
        },
        PhaseView::StageClear { index, temp } => match e {
            EventView::Completed => (
                with_phase(s, PhaseView::StageMove { index, temp }),
                StepView::Perform(ActionView::Rename(s.pairs[index as int].0, temp)),
            ),
            EventView::Failed(err) => finish(s, Err(RenameErrorView::IoError(s.pairs[index as int], err))),
            _ => illegal(s),
        },
        PhaseView::StageMove { index, temp } => match e {
            EventView::Completed => stage(
                RenameState {
                    temps: s.temps.push(temp),
                    ledger: record(s.ledger, (temp, s.pairs[index as int].0)),
                    ..s
                },
                index + 1,
            ),
            EventView::Failed(err) => finish(s, Err(RenameErrorView::IoError(s.pairs[index as int], err))),
            _ => illegal(s),
        },
        PhaseView::CommitProbe { index } => match e {
            EventView::Probed(k) => {
                let target = s.pairs[index as int].1;
                if k == EntryKind::Absent {
                    commit_move(s, index, target)
                } else if s.mode == RenameOverwriteMode::Error {
                    finish(s, Err(RenameErrorView::TargetFileAlreadyExists(s.pairs[index as int])))
                } else {
                    let s2 = RenameState { ledger: LedgerView::Irreversible, ..s };
                    if k == EntryKind::File && s.kinds[index as int] == EntryKind::File {
                        commit_move(s2, index, target)
                    } else if k == EntryKind::Directory {
                        (
                            with_phase(s2, PhaseView::CommitClear { index, dest: target }),
                            StepView::Perform(ActionView::RemoveDirAll(target)),
                        )
                    } else {
                        (
                            with_phase(s2, PhaseView::CommitClear { index, dest: target }),
                            StepView::Perform(ActionView::RemoveFile(target)),
                        )
                    }
                }
            },
            _ => illegal(s),
        },
        PhaseView::CommitSearch { index, resolver } => match e {
            EventView::Probed(k) => {
                let (r2, out) = resolve_step(resolver, k != EntryKind::Absent);
                match out {
                    None => (
                        with_phase(s, PhaseView::CommitSearch { index, resolver: r2 }),
                        StepView::Perform(ActionView::Probe(r2.candidate)),
                    ),
                    Some(Ok(c)) => commit_move(s, index, c),
                    Some(Err(())) => illegal(s),
                }
            },
            _ => illegal(s),
        },
        PhaseView::CommitClear { index, dest } => match e {
            EventView::Completed => commit_move(s, index, dest),
            EventView::Failed(err) => finish(s, Err(RenameErrorView::IoError(s.pairs[index as int], err))),
            _ => illegal(s),
        },
        PhaseView::CommitMove { index, dest } => match e {
            EventView::Completed => commit(RenameState { ledger: relocate(s.ledger, index, dest), ..s }, index + 1),
            EventView::Failed(err) => finish(s, Err(RenameErrorView::IoError(s.pairs[index as int], err))),
            _ => illegal(s),
        },
    }
}

/// Entry `j` of a ledger in progress records the source of pair `j` and,
/// for a pair not yet committed, its temporary path.
pub open spec fn ledger_tracks(s: RenameState, entries: Seq<PathPair>, committed: nat) -> bool {
    &&& forall|j: int| 0 <= j < entries.len() ==> #[trigger] entries[j].1 == s.pairs[j].0
    &&& forall|j: int| committed <= j < entries.len() ==> #[trigger] entries[j].0 == s.temps[j]
}

/// The ledger of an execution that has staged or committed pairs `0..count`.
pub open spec fn ledger_wf(s: RenameState, count: nat, committed: nat, may_be_irreversible: bool) -> bool {
    match s.ledger {
        LedgerView::NotYetReversible(entries) => entries.len() == count && ledger_tracks(s, entries, committed),
        LedgerView::Reversible(_) => false,
        LedgerView::Irreversible => may_be_irreversible,
    }
}

/// The invariant of the engine's state.
pub open spec fn rename_wf(s: RenameState) -> bool {
    let n = s.pairs.len();
    match s.phase {
        PhaseView::Idle => s.kinds.len() == 0 && s.temps.len() == 0 && s.ledger == LedgerView::NotYetReversible(
            Seq::empty(),
        ),
        PhaseView::Preflight => s.kinds.len() < n && s.temps.len() == 0 && s.ledger == LedgerView::NotYetReversible(
            Seq::empty(),
        ),
        PhaseView::StageTemp { index } => staging_wf(s, index),
        PhaseView::StageClear { index, temp } => staging_wf(s, index),
        PhaseView::StageMove { index, temp } => staging_wf(s, index),
        PhaseView::CommitProbe { index } => committing_wf(s, index) && s.mode != RenameOverwriteMode::ChangeFileName,
        PhaseView::CommitSearch { index, resolver } => committing_wf(s, index) && resolver_wf(resolver)
            && resolver.target == s.pairs[index as int].1,
        PhaseView::CommitClear { index, dest } => committing_wf(s, index),
        PhaseView::CommitMove { index, dest } => committing_wf(s, index),
        PhaseView::Done => match s.ledger {
            LedgerView::NotYetReversible(_) => false,
            LedgerView::Reversible(entries) => entries.len() <= n && forall|j: int|
                0 <= j < entries.len() ==> #[trigger] entries[j].1 == s.pairs[j].0,
            LedgerView::Irreversible => true,
        },
    }
}

/// Pairs `0..index` are staged, each with its temporary path in the ledger.
pub open spec fn staging_wf(s: RenameState, index: nat) -> bool {
    &&& index < s.pairs.len()
    &&& s.kinds.len() == s.pairs.len()
    &&& s.temps.len() == index
    &&& ledger_wf(s, index, 0, false)
}

/// Every pair is staged and pairs `0..index` are committed.
pub open spec fn committing_wf(s: RenameState, index: nat) -> bool {
    &&& index < s.pairs.len()
    &&& s.kinds.len() == s.pairs.len()
    &&& s.temps.len() == s.pairs.len()
    &&& ledger_wf(s, s.pairs.len(), index, true)
}

/// For each probed kind, whether the path exists.
fn present_list(kinds: &Vec<EntryKind>) -> (r: Vec<bool>)
    ensures
        r@ == present_of(kinds@),
{
    let mut r: Vec<bool> = Vec::new();
    let mut i: usize = 0;
    while i < kinds.len()
        invariant
            i <= kinds.len(),
            r@ == present_of(kinds@.take(i as int)),
        decreases kinds.len() - i,
    {
        r.push(kinds[i] != EntryKind::Absent);
        assert(r@ =~= present_of(kinds@.take(i + 1)));
        i = i + 1;
    }
    assert(kinds@.take(kinds.len() as int) =~= kinds@);
    r
}

impl BulkRename {
    /// A new operation over `pairs`, not executed yet.
    pub fn new(pairs: Vec<RenameMapPair>) -> (r: Self)
        ensures
            r@ == initial_state(pairs_view(pairs@)),
            rename_wf(r@),
    {
        let r = BulkRename {
            pairs,
            undo_pairs: UndoState::NotYetReversible(Vec::new()),
            mode: RenameOverwriteMode::Error,
            phase: Phase::Idle,
            kinds: Vec::new(),
            temps: Vec::new(),
        };
        assert(r@.temps =~= Seq::<Seq<char>>::empty());
        assert(pairs_view(Seq::<RenameMapPair>::empty()) =~= Seq::<PathPair>::empty());
        r
    }

    /// Checks that every source exists, given for each pair whether its
    /// source exists. Fails with `SourceFileNotFound` listing every pair
    /// whose source is missing, in order.
    pub fn check_not_found_source_files(&self, source_exists: &Vec<bool>) -> (r: Result<(), RenameError>)
        requires
            source_exists@.len() == self@.pairs.len(),
        ensures
            r is Ok <==> (forall|i: int| 0 <= i < source_exists.len() ==> #[trigger] source_exists@[i]),
            r is Ok <==> missing_sources(self@.pairs, source_exists@).len() == 0,
            r matches Err(e) ==> e@ == RenameErrorView::SourceFileNotFound(
                missing_sources(self@.pairs, source_exists@),
            ),
    {
        let ghost all = pairs_view(self.pairs@);
        let mut missing: Vec<RenameMapPair> = Vec::new();
        let mut i: usize = 0;
        while i < self.pairs.len()
            invariant
                i <= self.pairs.len(),
                source_exists.len() == self.pairs.len(),
                all == pairs_view(self.pairs@),
                pairs_view(missing@) == missing_sources(all.take(i as int), source_exists@.take(i as int)),
                missing@.len() == 0 <==> (forall|j: int| 0 <= j < i ==> #[trigger] source_exists@[j]),
            decreases self.pairs.len() - i,
        {
            let ghost before = missing@;
            assert(all.take(i + 1).drop_last() =~= all.take(i as int));
            assert(source_exists@.take(i + 1).drop_last() =~= source_exists@.take(i as int));
            if !source_exists[i] {
                missing.push(copy_pair(&self.pairs[i]));
                assert(pairs_view(missing@) =~= pairs_view(before).push(all[i as int]));
            }
            i = i + 1;
        }
        assert(all.take(i as int) =~= all);
        assert(source_exists@.take(i as int) =~= source_exists@);
        if missing.len() > 0 {
            return Err(RenameError::SourceFileNotFound(missing));
        }
        Ok(())
    }

    /// The ledger: `None` once the operation can no longer be undone.
    pub fn undo_pairs(&self) -> (r: Option<&Vec<RenameMapPair>>)
        ensures
            match self@.ledger {
                LedgerView::NotYetReversible(l) => r matches Some(v) && pairs_view(v@) == l,
                LedgerView::Reversible(l) => r matches Some(v) && pairs_view(v@) == l,
                LedgerView::Irreversible => r is None,
            },
    {
        match &self.undo_pairs {
            UndoState::NotYetReversible(v) => Some(v),
            UndoState::Reversible(v) => Some(v),
            UndoState::Irreversible => None,
        }
    }

    /// The operation that undoes this one: it renames each entry of the
    /// ledger from where it is now back to where it came from. `None` once
    /// an existing entry was overwritten.
    pub fn undo_bulk_rename(&self) -> (r: Option<BulkRename>)
        ensures
            match self@.ledger {
                LedgerView::NotYetReversible(l) => r matches Some(u) && u@ == initial_state(l) && rename_wf(u@),
                LedgerView::Reversible(l) => r matches Some(u) && u@ == initial_state(l) && rename_wf(u@),
                LedgerView::Irreversible => r is None,
            },
    {
        match &self.undo_pairs {
            UndoState::NotYetReversible(v) => Some(BulkRename::new(copy_pairs(v))),
            UndoState::Reversible(v) => Some(BulkRename::new(copy_pairs(v))),
            UndoState::Irreversible => None,
        }
    }

    /// Ends the execution with `r`.
    fn finish(&mut self, r: Result<(), RenameError>) -> (step: Step)
        ensures
            (final(self)@, step@) == finish(old(self)@, outcome_view(r)),
    {
        self.phase = Phase::Done;
        let mut ledger = UndoState::Irreversible;
        std::mem::swap(&mut ledger, &mut self.undo_pairs);
        self.undo_pairs = match ledger {
            UndoState::NotYetReversible(v) => UndoState::Reversible(v),
            other => other,
        };
        Step::Finished(r)
    }

    fn fail_illegal(&mut self) -> (step: Step)
        ensures
            (final(self)@, step@) == illegal(old(self)@),
    {
        self.finish(Err(RenameError::IllegalOperation))
    }

    /// Adds a staged entry to the ledger.
    fn record_entry(&mut self, entry: RenameMapPair)
        ensures
            final(self)@ == (RenameState { ledger: record(old(self)@.ledger, pair_view(entry)), ..old(self)@ }),
    {
        let mut ledger = UndoState::Irreversible;
        std::mem::swap(&mut ledger, &mut self.undo_pairs);
        self.undo_pairs = match ledger {
            UndoState::NotYetReversible(mut v) => {
                let ghost before = v@;
                v.push(entry);
                assert(pairs_view(v@) =~= pairs_view(before).push(pair_view(entry)));
                UndoState::NotYetReversible(v)
            },
            other => other,
        };
    }

    /// Records in the ledger that entry `i` is now at `dest`.
    fn relocate_entry(&mut self, i: usize, dest: String)
        requires
            old(self)@.ledger matches LedgerView::NotYetReversible(l) ==> i < l.len(),
        ensures
            final(self)@ == (RenameState { ledger: relocate(old(self)@.ledger, i as nat, dest@), ..old(self)@ }),
    {
        let mut ledger = UndoState::Irreversible;
        std::mem::swap(&mut ledger, &mut self.undo_pairs);
        self.undo_pairs = match ledger {
            UndoState::NotYetReversible(mut v) => {
                let ghost before = v@;
                let origin = v[i].1.clone();
                v.set(i, (dest, origin));
                assert(pairs_view(v@) =~= pairs_view(before).update(
                    i as int,
                    (dest@, pairs_view(before)[i as int].1),
                ));
                UndoState::NotYetReversible(v)
            },
            other => other,
        };
    }

    /// Commits pair `i`, or finishes when all are committed.
    fn commit_from(&mut self, i: usize) -> (step: Step)
        requires
            i <= old(self)@.pairs.len(),
        ensures
            (final(self)@, step@) == commit(old(self)@, i as nat),
    {
        if i >= self.pairs.len() {
            return self.finish(Ok(()));
        }
        let target = self.pairs[i].1.clone();
        let probe = FsAction::Probe(target.clone());
        if self.mode == RenameOverwriteMode::ChangeFileName {
            self.phase = Phase::CommitSearch { index: i, resolver: TargetResolver::new(target) };
        } else {
            self.phase = Phase::CommitProbe { index: i };
        }
        Step::Perform(probe)
    }

    /// Stages pair `i`, or starts committing when all are staged.
    fn stage_from(&mut self, i: usize) -> (step: Step)
        requires
            i <= old(self)@.pairs.len(),
        ensures
            (final(self)@, step@) == stage(old(self)@, i as nat),
    {
        if i >= self.pairs.len() {
            return self.commit_from(0);
        }
        match parent(&self.pairs[i].1) {
            None => self.fail_illegal(),
            Some(dir) => {
                let prefix = match file_name(&self.pairs[i].1) {
                    Some(n) => n,
                    None => String::new(),
                };
                self.phase = Phase::StageTemp { index: i };
                Step::Perform(FsAction::CreateTemp { dir, prefix })
            },
        }
    }

    /// Probes the next source, or judges the sources once all are probed.
    fn preflight_next(&mut self) -> (step: Step)
        requires
            old(self)@.kinds.len() <= old(self)@.pairs.len(),
        ensures
            (final(self)@, step@) == preflight(old(self)@),
    {
        if self.kinds.len() < self.pairs.len() {
            let source = self.pairs[self.kinds.len()].0.clone();
            self.phase = Phase::Preflight;
            return Step::Perform(FsAction::Probe(source));
        }
        let present = present_list(&self.kinds);
        match self.check_not_found_source_files(&present) {
            Err(e) => self.finish(Err(e)),
            Ok(()) => self.stage_from(0),
        }
    }

    /// Moves the staged entry of pair `i` to `dest`.
    fn commit_move_to(&mut self, i: usize, dest: String) -> (step: Step)
        requires
            i < old(self)@.temps.len(),
        ensures
            (final(self)@, step@) == commit_move(old(self)@, i as nat, dest@),
    {
        let from = self.temps[i].clone();
        self.phase = Phase::CommitMove { index: i, dest: dest.clone() };
        Step::Perform(FsAction::Rename { from, to: dest })
    }

    /// Starts executing the operation under `mode`. Fails with `Executed`
    /// where it was started before.
    pub fn begin(&mut self, mode: RenameOverwriteMode) -> (step: Step)
        requires
            rename_wf(old(self)@),
        ensures
            rename_wf(final(self)@),
            (final(self)@, step@) == start(old(self)@, mode),
    {
        proof {
            lemma_start_wf(self@, mode);
        }
        if matches!(self.phase, Phase::Idle) {
            self.mode = mode;
            self.preflight_next()
        } else {
            Step::Finished(Err(RenameError::Executed))
        }
    }

    /// Takes the answer to the last action asked for and says what comes
    /// next. An answer that does not fit the action ends the execution with
    /// `IllegalOperation`.
    pub fn advance(&mut self, event: FsEvent) -> (step: Step)
        requires
            rename_wf(old(self)@),
        ensures
            rename_wf(final(self)@),
            (final(self)@, step@) == next(old(self)@, event@),
    {
        proof {
            lemma_next_wf(self@, event@);
        }
        let ghost old_temps = self@.temps;
        let ghost s0 = self@;
        let n: usize = self.pairs.len();
        assert(s0.pairs.len() == n);
        let mut phase = Phase::Done;
        std::mem::swap(&mut phase, &mut self.phase);
        match phase {
            Phase::Idle => {
                self.phase = Phase::Idle;
                Step::Finished(Err(RenameError::IllegalOperation))
            },
            Phase::Done => {
                self.phase = Phase::Done;
                Step::Finished(Err(RenameError::Executed))
            },
            Phase::Preflight => {
                self.phase = Phase::Preflight;
                match event {
                    FsEvent::Probed(k) => {
                        self.kinds.push(k);
                        self.preflight_next()
                    },
                    _ => self.fail_illegal(),
                }
            },
            Phase::StageTemp { index } => {
                self.phase = Phase::StageTemp { index };
                match event {
                    FsEvent::TempCreated(t) => {
                        if self.kinds[index] == EntryKind::File {
                            let from = self.pairs[index].0.clone();
                            self.phase = Phase::StageMove { index, temp: t.clone() };
                            Step::Perform(FsAction::Rename { from, to: t })
                        } else {
                            self.phase = Phase::StageClear { index, temp: t.clone() };
                            Step::Perform(FsAction::RemoveFile(t))
                        }
                    },
                    FsEvent::Failed(err) => {
                        let p = copy_pair(&self.pairs[index]);
                        self.finish(Err(RenameError::TargetDirectoryNotWritable(p, err)))
                    },
                    _ => self.fail_illegal(),
                }
            },
            Phase::StageClear { index, temp } => {
                self.phase = Phase::StageClear { index, temp: temp.clone() };
                match event {
                    FsEvent::Completed => {
                        let from = self.pairs[index].0.clone();
                        self.phase = Phase::StageMove { index, temp: temp.clone() };
                        Step::Perform(FsAction::Rename { from, to: temp })
                    },
                    FsEvent::Failed(err) => {
                        let p = copy_pair(&self.pairs[index]);
                        self.finish(Err(RenameError::IoError(p, err)))
                    },
                    _ => self.fail_illegal(),
                }
            },
            Phase::StageMove { index, temp } => {
                assert(s0.phase == PhaseView::StageMove { index: index as nat, temp: temp@ });
                assert(index < s0.pairs.len());
                self.phase = Phase::StageMove { index, temp: temp.clone() };
                match event {
                    FsEvent::Completed => {
                        let source = self.pairs[index].0.clone();
                        self.temps.push(temp.clone());
                        assert(self@.temps =~= old_temps.push(temp@));
                        self.record_entry((temp, source));
                        self.stage_from(index + 1)
                    },
                    FsEvent::Failed(err) => {
                        let p = copy_pair(&self.pairs[index]);
                        self.finish(Err(RenameError::IoError(p, err)))
                    },
                    _ => self.fail_illegal(),
                }
            },
            Phase::CommitProbe { index } => {
                self.phase = Phase::CommitProbe { index };
                match event {
                    FsEvent::Probed(k) => {
                        let target = self.pairs[index].1.clone();
                        if k == EntryKind::Absent {
                            self.commit_move_to(index, target)
                        } else if self.mode == RenameOverwriteMode::Error {
                            let p = copy_pair(&self.pairs[index]);
                            self.finish(Err(RenameError::TargetFileAlreadyExists(p)))
                        } else {
                            self.undo_pairs = UndoState::Irreversible;
                            if k == EntryKind::File && self.kinds[index] == EntryKind::File {
                                self.commit_move_to(index, target)
                            } else if k == EntryKind::Directory {
                                self.phase = Phase::CommitClear { index, dest: target.clone() };
                                Step::Perform(FsAction::RemoveDirAll(target))
                            } else {
                                self.phase = Phase::CommitClear { index, dest: target.clone() };
                                Step::Perform(FsAction::RemoveFile(target))
                            }
                        }
                    },
                    _ => self.fail_illegal(),
                }
            },
            Phase::CommitSearch { index, mut resolver } => {
                match event {
                    FsEvent::Probed(k) => {
                        let out = resolver.advance(k != EntryKind::Absent);
                        let candidate = resolver.candidate().clone();
                        self.phase = Phase::CommitSearch { index, resolver };
                        match out {
                            None => Step::Perform(FsAction::Probe(candidate)),
                            Some(Ok(c)) => self.commit_move_to(index, c),
                            Some(Err(_)) => self.fail_illegal(),
                        }
                    },
                    _ => {
                        self.phase = Phase::CommitSearch { index, resolver };
                        self.fail_illegal()
                    },
                }
            },
            Phase::CommitClear { index, dest } => {
                self.phase = Phase::CommitClear { index, dest: dest.clone() };
                match event {
                    FsEvent::Completed => self.commit_move_to(index, dest),
                    FsEvent::Failed(err) => {
                        let p = copy_pair(&self.pairs[index]);
                        self.finish(Err(RenameError::IoError(p, err)))
                    },
                    _ => self.fail_illegal(),
                }
            },
            Phase::CommitMove { index, dest } => {
                assert(s0.phase == PhaseView::CommitMove { index: index as nat, dest: dest@ });
                assert(index < s0.pairs.len());
                self.phase = Phase::CommitMove { index, dest: dest.clone() };
                match event {
                    FsEvent::Completed => {
                        self.relocate_entry(index, dest);
                        self.commit_from(index + 1)
                    },
                    FsEvent::Failed(err) => {
                        let p = copy_pair(&self.pairs[index]);
                        self.finish(Err(RenameError::IoError(p, err)))
                    },
                    _ => self.fail_illegal(),
                }
            },
        }
    }
}

/// Starting an execution keeps the engine's invariant.
pub proof fn lemma_start_wf(s: RenameState, mode: RenameOverwriteMode)
    requires
        rename_wf(s),
    ensures
        rename_wf(start(s, mode).0),
{
    if s.phase is Idle {
        lemma_preflight_wf(RenameState { mode, ..s });
    }
}

proof fn lemma_preflight_wf(s: RenameState)
    requires
        s.kinds.len() <= s.pairs.len(),
        s.temps.len() == 0,
        s.ledger == LedgerView::NotYetReversible(Seq::empty()),
    ensures
        rename_wf(preflight(s).0),
{
    if s.kinds.len() >= s.pairs.len() && missing_sources(s.pairs, present_of(s.kinds)).len() == 0 {
        lemma_stage_wf(s, 0);
    }
}

proof fn lemma_stage_wf(s: RenameState, i: nat)
    requires
        i <= s.pairs.len(),
        s.kinds.len() == s.pairs.len(),
        s.temps.len() == i,
        ledger_wf(s, i, 0, false),
    ensures
        rename_wf(stage(s, i).0),
{
    if i >= s.pairs.len() {
        lemma_commit_wf(s, 0);
    }
}

proof fn lemma_commit_wf(s: RenameState, i: nat)
    requires
        i <= s.pairs.len(),
        s.kinds.len() == s.pairs.len(),
        s.temps.len() == s.pairs.len(),
        ledger_wf(s, s.pairs.len(), i, true),
    ensures
        rename_wf(commit(s, i).0),
{
}

/// Every answer keeps the engine's invariant.
pub proof fn lemma_next_wf(s: RenameState, e: EventView)
    requires
        rename_wf(s),
    ensures
        rename_wf(next(s, e).0),
{
    match s.phase {
        PhaseView::Preflight => {
            if let EventView::Probed(k) = e {
                lemma_preflight_wf(RenameState { kinds: s.kinds.push(k), ..s });
            }
        },
        PhaseView::StageMove { index, temp } => {
            if e is Completed {
                let s2 = RenameState {
                    temps: s.temps.push(temp),
                    ledger: record(s.ledger, (temp, s.pairs[index as int].0)),
                    ..s
                };
                if let LedgerView::NotYetReversible(entries) = s.ledger {
                    let e2 = entries.push((temp, s.pairs[index as int].0));
                    assert(ledger_tracks(s2, e2, 0));
                }
                lemma_stage_wf(s2, index + 1);
            }
        },
        PhaseView::CommitMove { index, dest } => {
            if e is Completed {
                let s2 = RenameState { ledger: relocate(s.ledger, index, dest), ..s };
                if let LedgerView::NotYetReversible(entries) = s.ledger {
                    let e2 = entries.update(index as int, (dest, entries[index as int].1));
                    assert(ledger_tracks(s2, e2, index + 1));
                }
                lemma_commit_wf(s2, index + 1);
            }
        },
        _ => {},
    }
}

} // verus!
