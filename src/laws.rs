use vstd::prelude::*;
use crate::error::{PathPair, RenameErrorView};
use crate::disk::{
    answers, disk_wf, execution, finished_execution, is_moved, kind_at, placeholder, renamable,
    reversed, run_end, sources, targets, temps_avoid, valid_run, Disk,
};
use crate::path::parent_of;
use crate::resolve::resolver_start;
use crate::rename::{
    initial_state, missing_sources, next, present_of, rename_wf, start, temp_prefix, ActionView,
    EntryKind, EventView, LedgerView, PhaseView, RenameOverwriteMode, RenameState, StepView,
};

verus! {

// ---------------------------------------------------------------------
// Facts on sequences.

proof fn lemma_take_push<A>(s: Seq<A>, i: int, p: A)
    requires
        0 <= i < s.len(),
    ensures
        s.take(i + 1).contains(p) <==> (s.take(i).contains(p) || p == s[i]),
{
    assert(s.take(i + 1) =~= s.take(i).push(s[i]));
    if s.take(i + 1).contains(p) && p != s[i] {
        let k = choose|k: int| 0 <= k < s.take(i + 1).len() && #[trigger] s.take(i + 1)[k] == p;
        assert(s.take(i)[k] == p);
    }
    if s.take(i).contains(p) {
        let k = choose|k: int| 0 <= k < s.take(i).len() && #[trigger] s.take(i)[k] == p;
        assert(s.take(i + 1)[k] == p);
    }
    if p == s[i] {
        assert(s.take(i + 1)[i] == p);
    }
}

proof fn lemma_skip_front<A>(s: Seq<A>, i: int, p: A)
    requires
        0 <= i < s.len(),
    ensures
        s.skip(i).contains(p) <==> (s.skip(i + 1).contains(p) || p == s[i]),
{
    if s.skip(i).contains(p) && p != s[i] {
        let k = choose|k: int| 0 <= k < s.skip(i).len() && #[trigger] s.skip(i)[k] == p;
        assert(k != 0);
        assert(s.skip(i + 1)[k - 1] == p);
    }
    if s.skip(i + 1).contains(p) {
        let k = choose|k: int| 0 <= k < s.skip(i + 1).len() && #[trigger] s.skip(i + 1)[k] == p;
        assert(s.skip(i)[k + 1] == p);
    }
    if p == s[i] {
        assert(s.skip(i)[0] == p);
    }
}

proof fn lemma_contains_index<A>(s: Seq<A>, j: int)
    requires
        0 <= j < s.len(),
    ensures
        s.contains(s[j]),
{
}

/// In a sequence without duplicates, element `i` does not occur before `i`.
proof fn lemma_not_in_take<A>(s: Seq<A>, i: int)
    requires
        0 <= i < s.len(),
        s.no_duplicates(),
    ensures
        !s.take(i).contains(s[i]),
{
    if s.take(i).contains(s[i]) {
        let k = choose|k: int| 0 <= k < s.take(i).len() && #[trigger] s.take(i)[k] == s[i];
        assert(s[k] == s[i]);
    }
}

/// In a sequence without duplicates, element `i` does not occur after `i`.
proof fn lemma_not_in_skip<A>(s: Seq<A>, i: int)
    requires
        0 <= i < s.len(),
        s.no_duplicates(),
    ensures
        !s.skip(i + 1).contains(s[i]),
{
    if s.skip(i + 1).contains(s[i]) {
        let k = choose|k: int| 0 <= k < s.skip(i + 1).len() && #[trigger] s.skip(i + 1)[k] == s[i];
        assert(s[k + i + 1] == s[i]);
    }
}

/// With every source reported present, no pair is missing.
proof fn lemma_none_missing(pairs: Seq<PathPair>, present: Seq<bool>)
    requires
        present.len() == pairs.len(),
        forall|j: int| 0 <= j < present.len() ==> #[trigger] present[j],
    ensures
        missing_sources(pairs, present).len() == 0,
    decreases pairs.len(),
{
    if pairs.len() > 0 {
        let rest_present = present.drop_last();
        assert forall|j: int| 0 <= j < rest_present.len() implies #[trigger] rest_present[j] by {
            assert(rest_present[j] == present[j]);
        }
        lemma_none_missing(pairs.drop_last(), rest_present);
        assert(present.last() == present[present.len() - 1]);
    }
}

// ---------------------------------------------------------------------
// The invariant of an execution under `Error` on a well-behaved disk.

/// Fresh temporary paths: distinct, not on the starting disk, and not among
/// the paths that the pairs name.
pub open spec fn temps_fresh(pairs: Seq<PathPair>, d0: Disk, temps: Seq<Seq<char>>) -> bool {
    &&& temps.no_duplicates()
    &&& forall|j: int| 0 <= j < temps.len() ==> !sources(pairs).contains(#[trigger] temps[j])
    &&& forall|j: int| 0 <= j < temps.len() ==> !targets(pairs).contains(#[trigger] temps[j])
    &&& forall|j: int| 0 <= j < temps.len() ==> !d0.contains_key(#[trigger] temps[j])
}

/// Kinds probed before anything moved: those of the sources on `d0`.
pub open spec fn kinds_seen(kinds: Seq<EntryKind>, pairs: Seq<PathPair>, d0: Disk) -> bool {
    &&& kinds.len() <= pairs.len()
    &&& forall|j: int| 0 <= j < kinds.len() ==> #[trigger] kinds[j] == kind_at(d0, pairs[j].0)
}

/// `d` is `d0` with the sources of pairs `0..i` moved to `temps`.
pub open spec fn staged(d: Disk, d0: Disk, pairs: Seq<PathPair>, temps: Seq<Seq<char>>, i: int) -> bool {
    &&& temps.len() == i
    &&& forall|p: Seq<char>| #[trigger] d.contains_key(p) <==> ((d0.contains_key(p) && !sources(pairs).take(i).contains(p)) || temps.contains(p))
    &&& forall|j: int| 0 <= j < i ==> d[#[trigger] temps[j]] == d0[pairs[j].0]
    &&& forall|p: Seq<char>| d0.contains_key(p) && !sources(pairs).take(i).contains(p) ==> #[trigger] d[p] == d0[p]
}

/// `d` is `d0` with every source staged and pairs `0..i` committed.
pub open spec fn committed(d: Disk, d0: Disk, pairs: Seq<PathPair>, temps: Seq<Seq<char>>, i: int) -> bool {
    &&& temps.len() == pairs.len()
    &&& forall|p: Seq<char>| #[trigger] d.contains_key(p) <==> ((d0.contains_key(p) && !sources(pairs).contains(p))
        || targets(pairs).take(i).contains(p) || temps.skip(i).contains(p))
    &&& forall|j: int| 0 <= j < i ==> d[#[trigger] pairs[j].1] == d0[pairs[j].0]
    &&& forall|j: int| i <= j < pairs.len() ==> d[#[trigger] temps[j]] == d0[pairs[j].0]
    &&& forall|p: Seq<char>| d0.contains_key(p) && !sources(pairs).contains(p) ==> #[trigger] d[p] == d0[p]
}

/// The ledger while committing: pairs before `i` are at their targets,
/// the others at their temporary paths.
pub open spec fn commit_ledger(s: RenameState, pairs: Seq<PathPair>, i: int) -> bool {
    s.ledger matches LedgerView::NotYetReversible(entries) && entries.len() == pairs.len() && forall|j: int|
        0 <= j < pairs.len() ==> #[trigger] entries[j] == (if j < i {
            pairs[j].1
        } else {
            s.temps[j]
        }, pairs[j].0)
}

/// A temporary path just handed out for pair `i`.
pub open spec fn fresh_temp(t: Seq<char>, pairs: Seq<PathPair>, d0: Disk, temps: Seq<Seq<char>>) -> bool {
    &&& !sources(pairs).contains(t)
    &&& !targets(pairs).contains(t)
    &&& !d0.contains_key(t)
    &&& !temps.contains(t)
}

/// Where an execution of `pairs` under `Error`, started on `d0`, stands
/// with state `s`, last step `step`, on disk `d`.
pub open spec fn error_run_inv(pairs: Seq<PathPair>, d0: Disk, s: RenameState, step: StepView, d: Disk) -> bool {
    &&& s.pairs == pairs
    &&& s.mode == RenameOverwriteMode::Error
    &&& rename_wf(s)
    &&& disk_wf(d)
    &&& temps_fresh(pairs, d0, s.temps)
    &&& kinds_seen(s.kinds, pairs, d0)
    &&& match s.phase {
        PhaseView::Preflight => d == d0 && step == StepView::Perform(ActionView::Probe(pairs[s.kinds.len() as int].0)),
        PhaseView::StageTemp { index } => staged(d, d0, pairs, s.temps, index as int)
            && step matches StepView::Perform(ActionView::CreateTemp(_, _)),
        PhaseView::StageClear { index, temp } => {
            &&& staged(d.remove(temp), d0, pairs, s.temps, index as int)
            &&& fresh_temp(temp, pairs, d0, s.temps)
            &&& d.contains_key(temp) && d[temp] == placeholder()
            &&& s.kinds[index as int] != EntryKind::File
            &&& step == StepView::Perform(ActionView::RemoveFile(temp))
        },
        PhaseView::StageMove { index, temp } => {
            &&& staged(d.remove(temp), d0, pairs, s.temps, index as int)
            &&& fresh_temp(temp, pairs, d0, s.temps)
            &&& d.contains_key(temp) ==> d[temp] == placeholder() && s.kinds[index as int] == EntryKind::File
            &&& step == StepView::Perform(ActionView::Rename(pairs[index as int].0, temp))
        },
        PhaseView::CommitProbe { index } => {
            &&& committed(d, d0, pairs, s.temps, index as int)
            &&& commit_ledger(s, pairs, index as int)
            &&& step == StepView::Perform(ActionView::Probe(pairs[index as int].1))
        },
        PhaseView::CommitMove { index, dest } => {
            &&& committed(d, d0, pairs, s.temps, index as int)
            &&& commit_ledger(s, pairs, index as int)
            &&& dest == pairs[index as int].1
            &&& step == StepView::Perform(ActionView::Rename(s.temps[index as int], pairs[index as int].1))
        },
        PhaseView::Done => {
            &&& step == StepView::Finished(Ok(()))
            &&& is_moved(d, d0, pairs)
            &&& s.ledger == LedgerView::Reversible(reversed(pairs))
        },
        _ => false,
    }
}


proof fn lemma_take_contains<A>(s: Seq<A>, i: int, p: A)
    requires
        0 <= i <= s.len(),
        s.take(i).contains(p),
    ensures
        s.contains(p),
{
    let k = choose|k: int| 0 <= k < s.take(i).len() && #[trigger] s.take(i)[k] == p;
    assert(s[k] == p);
}

proof fn lemma_skip_contains<A>(s: Seq<A>, i: int, p: A)
    requires
        0 <= i <= s.len(),
        s.skip(i).contains(p),
    ensures
        s.contains(p),
{
    let k = choose|k: int| 0 <= k < s.skip(i).len() && #[trigger] s.skip(i)[k] == p;
    assert(s[k + i] == p);
}

/// The first step of an execution under `Error`.
proof fn lemma_error_start(pairs: Seq<PathPair>, d0: Disk)
    requires
        renamable(pairs, d0),
    ensures
        error_run_inv(pairs, d0, start(initial_state(pairs), RenameOverwriteMode::Error).0,
            start(initial_state(pairs), RenameOverwriteMode::Error).1, d0),
{
    let s0 = initial_state(pairs);
    crate::rename::lemma_start_wf(s0, RenameOverwriteMode::Error);
    let s1 = RenameState { mode: RenameOverwriteMode::Error, ..s0 };
    assert(temps_fresh(pairs, d0, s1.temps));
    if pairs.len() == 0 {
        assert(present_of(s1.kinds) =~= Seq::<bool>::empty());
        assert(sources(pairs) =~= Seq::<Seq<char>>::empty());
        assert(targets(pairs) =~= Seq::<Seq<char>>::empty());
        assert(reversed(pairs) =~= Seq::<PathPair>::empty());
    }
}

proof fn lemma_error_preflight(pairs: Seq<PathPair>, d0: Disk, s: RenameState, step: StepView, e: EventView, d: Disk, d2: Disk)
    requires
        renamable(pairs, d0),
        error_run_inv(pairs, d0, s, step, d),
        s.phase is Preflight,
        answers(d, ActionView::Probe(pairs[s.kinds.len() as int].0), e, d2),
    ensures
        error_run_inv(pairs, d0, next(s, e).0, next(s, e).1, d2),
{
    crate::rename::lemma_next_wf(s, e);
    let k = kind_at(d0, pairs[s.kinds.len() as int].0);
    let s2 = RenameState { kinds: s.kinds.push(k), ..s };
    assert(kinds_seen(s2.kinds, pairs, d0));
    if s2.kinds.len() >= pairs.len() {
        let present = present_of(s2.kinds);
        assert forall|j: int| 0 <= j < present.len() implies #[trigger] present[j] by {
            assert(d0.contains_key(pairs[j].0));
        }
        lemma_none_missing(pairs, present);
        assert(sources(pairs).take(0) =~= Seq::<Seq<char>>::empty());
        assert(staged(d2, d0, pairs, s2.temps, 0));
    }
}

proof fn lemma_error_stage_temp(pairs: Seq<PathPair>, d0: Disk, s: RenameState, step: StepView, e: EventView, d: Disk, d2: Disk)
    requires
        renamable(pairs, d0),
        error_run_inv(pairs, d0, s, step, d),
        s.phase is StageTemp,
        step matches StepView::Perform(a) && answers(d, a, e, d2),
        e matches EventView::TempCreated(t) ==> !sources(pairs).contains(t) && !targets(pairs).contains(t),
    ensures
        error_run_inv(pairs, d0, next(s, e).0, next(s, e).1, d2),
{
    crate::rename::lemma_next_wf(s, e);
    let i = s.phase->StageTemp_index as int;
    if let EventView::TempCreated(t) = e {
        assert(d2.remove(t) =~= d);
        if d0.contains_key(t) {
            if sources(pairs).take(i).contains(t) {
                lemma_take_contains(sources(pairs), i, t);
            }
            assert(d.contains_key(t));
        }
        if s.temps.contains(t) {
            let j = choose|j: int| 0 <= j < s.temps.len() && #[trigger] s.temps[j] == t;
            assert(d.contains_key(s.temps[j]));
        }
        assert(fresh_temp(t, pairs, d0, s.temps));
    }
}

proof fn lemma_error_stage_clear(pairs: Seq<PathPair>, d0: Disk, s: RenameState, step: StepView, e: EventView, d: Disk, d2: Disk)
    requires
        renamable(pairs, d0),
        error_run_inv(pairs, d0, s, step, d),
        s.phase is StageClear,
        step matches StepView::Perform(a) && answers(d, a, e, d2),
    ensures
        error_run_inv(pairs, d0, next(s, e).0, next(s, e).1, d2),
{
    crate::rename::lemma_next_wf(s, e);
    let temp = s.phase->StageClear_temp;
    assert(d2.remove(temp) =~= d.remove(temp));
}

proof fn lemma_error_stage_move(pairs: Seq<PathPair>, d0: Disk, s: RenameState, step: StepView, e: EventView, d: Disk, d2: Disk)
    requires
        renamable(pairs, d0),
        error_run_inv(pairs, d0, s, step, d),
        s.phase is StageMove,
        step matches StepView::Perform(a) && answers(d, a, e, d2),
    ensures
        error_run_inv(pairs, d0, next(s, e).0, next(s, e).1, d2),
{
    crate::rename::lemma_next_wf(s, e);
    let i = s.phase->StageMove_index as int;
    let temp = s.phase->StageMove_temp;
    let src = sources(pairs);
    let source = pairs[i].0;
    assert(src[i] == source);
    lemma_not_in_take(src, i);
    let temps2 = s.temps.push(temp);
    let d_st = d.remove(temp);
    assert(d_st.contains_key(source));
    assert(d_st[source] == d0[source]);
    assert forall|p: Seq<char>| #[trigger] d2.contains_key(p) <==> ((d0.contains_key(p) && !src.take(i + 1).contains(p)) || temps2.contains(p)) by {
        lemma_take_push(src, i, p);
        assert(d_st.contains_key(p) == (d.contains_key(p) && p != temp));
        if temps2.contains(p) && p != temp {
            let j = choose|j: int| 0 <= j < temps2.len() && #[trigger] temps2[j] == p;
            assert(s.temps[j] == p);
        }
        if s.temps.contains(p) {
            let j = choose|j: int| 0 <= j < s.temps.len() && #[trigger] s.temps[j] == p;
            assert(temps2[j] == p);
            assert(!src.contains(s.temps[j]));
            if p == source {
                lemma_contains_index(src, i);
            }
        }
        if p == temp {
            assert(temps2[i] == p);
        }
    }
    assert forall|j: int| 0 <= j < i + 1 implies d2[#[trigger] temps2[j]] == d0[pairs[j].0] by {
        if j < i {
            assert(temps2[j] == s.temps[j]);
            lemma_contains_index(s.temps, j);
            assert(!src.contains(s.temps[j]));
            lemma_contains_index(src, i);
        }
    }
    assert forall|p: Seq<char>| d0.contains_key(p) && !src.take(i + 1).contains(p) implies #[trigger] d2[p] == d0[p] by {
        lemma_take_push(src, i, p);
        assert(p != temp);
        assert(d_st[p] == d0[p]);
    }
    assert(temps2.no_duplicates());
    assert(temps_fresh(pairs, d0, temps2));
    assert(staged(d2, d0, pairs, temps2, i + 1));
    if i + 1 >= pairs.len() {
        let tgt = targets(pairs);
        assert(src.take(i + 1) =~= src);
        assert(temps2.skip(0) =~= temps2);
        assert(tgt.take(0) =~= Seq::<Seq<char>>::empty());
        assert(committed(d2, d0, pairs, temps2, 0));
        let entries = s.ledger->NotYetReversible_0;
        let entries2 = entries.push((temp, source));
        assert forall|j: int| 0 <= j < pairs.len() implies #[trigger] entries2[j] == (if j < 0 {
            pairs[j].1
        } else {
            temps2[j]
        }, pairs[j].0) by {
            if j < i {
                assert(entries2[j] == entries[j]);
                assert(entries[j].1 == s.pairs[j].0);
                assert(entries[j].0 == s.temps[j]);
            }
        }
        assert(commit_ledger(next(s, e).0, pairs, 0));
    } else {
        assert(parent_of(pairs[i + 1].1) is Some);
    }
}

proof fn lemma_error_commit_probe(pairs: Seq<PathPair>, d0: Disk, s: RenameState, step: StepView, e: EventView, d: Disk, d2: Disk)
    requires
        renamable(pairs, d0),
        error_run_inv(pairs, d0, s, step, d),
        s.phase is CommitProbe,
        step matches StepView::Perform(a) && answers(d, a, e, d2),
    ensures
        error_run_inv(pairs, d0, next(s, e).0, next(s, e).1, d2),
{
    crate::rename::lemma_next_wf(s, e);
    let i = s.phase->CommitProbe_index as int;
    let target = pairs[i].1;
    let tgt = targets(pairs);
    assert(tgt[i] == target);
    lemma_not_in_take(tgt, i);
    if s.temps.skip(i).contains(target) {
        lemma_skip_contains(s.temps, i, target);
        let j = choose|j: int| 0 <= j < s.temps.len() && #[trigger] s.temps[j] == target;
        lemma_contains_index(tgt, i);
    }
    assert(!d.contains_key(target));
}

proof fn lemma_error_commit_move(pairs: Seq<PathPair>, d0: Disk, s: RenameState, step: StepView, e: EventView, d: Disk, d2: Disk)
    requires
        renamable(pairs, d0),
        error_run_inv(pairs, d0, s, step, d),
        s.phase is CommitMove,
        step matches StepView::Perform(a) && answers(d, a, e, d2),
    ensures
        error_run_inv(pairs, d0, next(s, e).0, next(s, e).1, d2),
{
    crate::rename::lemma_next_wf(s, e);
    let i = s.phase->CommitMove_index as int;
    let target = pairs[i].1;
    let temp = s.temps[i];
    let src = sources(pairs);
    let tgt = targets(pairs);
    assert(tgt[i] == target);
    lemma_not_in_take(tgt, i);
    lemma_not_in_skip(s.temps, i);
    lemma_contains_index(s.temps, i);
    assert(!tgt.contains(temp));
    assert(!src.contains(temp));
    lemma_contains_index(tgt, i);
    assert forall|p: Seq<char>| #[trigger] d2.contains_key(p) <==> ((d0.contains_key(p) && !src.contains(p))
        || tgt.take(i + 1).contains(p) || s.temps.skip(i + 1).contains(p)) by {
        lemma_take_push(tgt, i, p);
        lemma_skip_front(s.temps, i, p);
        if p == target && d0.contains_key(p) {
            assert(src.contains(pairs[i].1));
        }
    }
    assert forall|j: int| 0 <= j < i + 1 implies d2[#[trigger] pairs[j].1] == d0[pairs[j].0] by {
        if j < i {
            assert(tgt[j] == pairs[j].1);
            lemma_contains_index(tgt, j);
            assert(tgt[j] != tgt[i]);
        }
    }
    assert forall|j: int| i + 1 <= j < pairs.len() implies d2[#[trigger] s.temps[j]] == d0[pairs[j].0] by {
        lemma_contains_index(s.temps, j);
        assert(!tgt.contains(s.temps[j]));
        assert(s.temps[j] != s.temps[i]);
    }
    assert forall|p: Seq<char>| d0.contains_key(p) && !src.contains(p) implies #[trigger] d2[p] == d0[p] by {
        if p == target {
            assert(src.contains(pairs[i].1));
        }
    }
    assert(committed(d2, d0, pairs, s.temps, i + 1));
    if i + 1 >= pairs.len() {
        assert(tgt.take(i + 1) =~= tgt);
        assert(s.temps.skip(i + 1) =~= Seq::<Seq<char>>::empty());
        let entries = s.ledger->NotYetReversible_0;
        let entries2 = entries.update(i, (target, entries[i].1));
        assert(entries2 =~= reversed(pairs));
        assert forall|p: Seq<char>| #[trigger] d2.contains_key(p) <==> ((d0.contains_key(p) && !src.contains(p)) || tgt.contains(p)) by {
        }
        assert forall|j: int| 0 <= j < pairs.len() implies d2[#[trigger] pairs[j].1] == d0[pairs[j].0] by {
        }
        assert(is_moved(d2, d0, pairs));
    }
}


proof fn lemma_error_step(pairs: Seq<PathPair>, d0: Disk, s: RenameState, step: StepView, e: EventView, d: Disk, d2: Disk)
    requires
        renamable(pairs, d0),
        error_run_inv(pairs, d0, s, step, d),
        step matches StepView::Perform(a) && answers(d, a, e, d2),
        e matches EventView::TempCreated(t) ==> !sources(pairs).contains(t) && !targets(pairs).contains(t),
    ensures
        error_run_inv(pairs, d0, next(s, e).0, next(s, e).1, d2),
{
    match s.phase {
        PhaseView::Preflight => lemma_error_preflight(pairs, d0, s, step, e, d, d2),
        PhaseView::StageTemp { .. } => lemma_error_stage_temp(pairs, d0, s, step, e, d, d2),
        PhaseView::StageClear { .. } => lemma_error_stage_clear(pairs, d0, s, step, e, d, d2),
        PhaseView::StageMove { .. } => lemma_error_stage_move(pairs, d0, s, step, e, d, d2),
        PhaseView::CommitProbe { .. } => lemma_error_commit_probe(pairs, d0, s, step, e, d, d2),
        PhaseView::CommitMove { .. } => lemma_error_commit_move(pairs, d0, s, step, e, d, d2),
        _ => {},
    }
}

proof fn lemma_error_run(pairs: Seq<PathPair>, d0: Disk, s: RenameState, step: StepView, events: Seq<EventView>, disks: Seq<Disk>)
    requires
        renamable(pairs, d0),
        valid_run(s, step, events, disks),
        error_run_inv(pairs, d0, s, step, disks[0]),
        temps_avoid(pairs, events),
    ensures
        error_run_inv(pairs, d0, run_end(s, step, events).0, run_end(s, step, events).1, disks.last()),
    decreases events.len(),
{
    if events.len() > 0 {
        assert(events[0] == events[0]);
        lemma_error_step(pairs, d0, s, step, events[0], disks[0], disks[1]);
        let rest = events.drop_first();
        assert forall|k: int| 0 <= k < rest.len() implies (#[trigger] rest[k] matches EventView::TempCreated(t)
            ==> !sources(pairs).contains(t) && !targets(pairs).contains(t)) by {
            assert(rest[k] == events[k + 1]);
        }
        lemma_error_run(pairs, d0, next(s, events[0]).0, next(s, events[0]).1, rest, disks.drop_first());
        assert(disks.drop_first().last() == disks.last());
    }
}

/// Executing pairs that can all be renamed, under `Error`, on a
/// well-behaved filesystem that hands out temporary paths other than the
/// pairs' own: once the execution has finished, it has succeeded, every
/// source is at its target with its content, nothing else has changed, and
/// the ledger lists every pair turned around.
pub proof fn lemma_execute_error(pairs: Seq<PathPair>, events: Seq<EventView>, disks: Seq<Disk>)
    requires
        disks.len() > 0,
        renamable(pairs, disks[0]),
        temps_avoid(pairs, events),
        finished_execution(pairs, RenameOverwriteMode::Error, events, disks),
    ensures
        execution(pairs, RenameOverwriteMode::Error, events).1 == StepView::Finished(Ok(())),
        execution(pairs, RenameOverwriteMode::Error, events).0.ledger == LedgerView::Reversible(reversed(pairs)),
        is_moved(disks.last(), disks[0], pairs),
{
    let st = start(initial_state(pairs), RenameOverwriteMode::Error);
    lemma_error_start(pairs, disks[0]);
    lemma_error_run(pairs, disks[0], st.0, st.1, events, disks);
}

/// An upper bound on the events an execution under `Error` still takes
/// from state `s`: one probe per source not yet probed, at most three
/// events to stage a pair and two to commit it.
pub open spec fn error_budget(s: RenameState) -> nat {
    let n = s.pairs.len() as int;
    let left = match s.phase {
        PhaseView::Preflight => (n - s.kinds.len()) + 5 * n,
        PhaseView::StageTemp { index } => 3 * (n - index) + 2 * n,
        PhaseView::StageClear { index, .. } => 3 * (n - index) - 1 + 2 * n,
        PhaseView::StageMove { index, .. } => 3 * (n - index) - 2 + 2 * n,
        PhaseView::CommitProbe { index } => 2 * (n - index),
        PhaseView::CommitMove { index, .. } => 2 * (n - index) - 1,
        _ => 0,
    };
    if left < 0 {
        0
    } else {
        left as nat
    }
}

/// A well-behaved filesystem can carry out action `a` on disk `d`; for a
/// temporary file, any free path will do.
pub open spec fn answerable(d: Disk, a: ActionView) -> bool {
    match a {
        ActionView::CreateTemp(_, _) => true,
        _ => exists|e: EventView, d2: Disk| answers(d, a, e, d2),
    }
}

proof fn lemma_error_budget_step(pairs: Seq<PathPair>, d0: Disk, s: RenameState, step: StepView, e: EventView, d: Disk, d2: Disk)
    requires
        renamable(pairs, d0),
        error_run_inv(pairs, d0, s, step, d),
        step matches StepView::Perform(a) && answers(d, a, e, d2),
        e matches EventView::TempCreated(t) ==> !sources(pairs).contains(t) && !targets(pairs).contains(t),
    ensures
        error_budget(next(s, e).0) < error_budget(s),
{
    lemma_error_step(pairs, d0, s, step, e, d, d2);
    if s.phase is CommitProbe {
        lemma_error_commit_probe(pairs, d0, s, step, e, d, d2);
        let i = s.phase->CommitProbe_index as int;
        lemma_not_in_take(targets(pairs), i);
        assert(targets(pairs)[i] == pairs[i].1);
        if s.temps.skip(i).contains(pairs[i].1) {
            lemma_skip_contains(s.temps, i, pairs[i].1);
            let j = choose|j: int| 0 <= j < s.temps.len() && #[trigger] s.temps[j] == pairs[i].1;
            lemma_contains_index(targets(pairs), i);
        }
        assert(!d.contains_key(pairs[i].1));
    }
}

proof fn lemma_error_run_bound(pairs: Seq<PathPair>, d0: Disk, s: RenameState, step: StepView, events: Seq<EventView>, disks: Seq<Disk>)
    requires
        renamable(pairs, d0),
        valid_run(s, step, events, disks),
        error_run_inv(pairs, d0, s, step, disks[0]),
        temps_avoid(pairs, events),
    ensures
        events.len() <= error_budget(s),
    decreases events.len(),
{
    if events.len() > 0 {
        assert(events[0] == events[0]);
        lemma_error_budget_step(pairs, d0, s, step, events[0], disks[0], disks[1]);
        lemma_error_step(pairs, d0, s, step, events[0], disks[0], disks[1]);
        let rest = events.drop_first();
        assert forall|k: int| 0 <= k < rest.len() implies (#[trigger] rest[k] matches EventView::TempCreated(t)
            ==> !sources(pairs).contains(t) && !targets(pairs).contains(t)) by {
            assert(rest[k] == events[k + 1]);
        }
        lemma_error_run_bound(pairs, d0, next(s, events[0]).0, next(s, events[0]).1, rest, disks.drop_first());
    }
}

proof fn lemma_error_progress(pairs: Seq<PathPair>, d0: Disk, s: RenameState, step: StepView, d: Disk)
    requires
        renamable(pairs, d0),
        error_run_inv(pairs, d0, s, step, d),
        !(s.phase is Done),
    ensures
        step matches StepView::Perform(a) && answerable(d, a),
{
    match s.phase {
        PhaseView::Preflight => {
            let p = pairs[s.kinds.len() as int].0;
            assert(answers(d, ActionView::Probe(p), EventView::Probed(kind_at(d, p)), d));
        },
        PhaseView::StageClear { temp, .. } => {
            assert(answers(d, ActionView::RemoveFile(temp), EventView::Completed, d.remove(temp)));
        },
        PhaseView::StageMove { index, temp } => {
            let i = index as int;
            let src = sources(pairs);
            let source = pairs[i].0;
            assert(src[i] == source);
            lemma_not_in_take(src, i);
            let d_st = d.remove(temp);
            assert(d_st.contains_key(source));
            assert(d_st[source] == d0[source]);
            let d2 = d.remove(source).insert(temp, d[source]);
            assert(answers(d, ActionView::Rename(source, temp), EventView::Completed, d2));
        },
        PhaseView::CommitProbe { index } => {
            let p = pairs[index as int].1;
            assert(answers(d, ActionView::Probe(p), EventView::Probed(kind_at(d, p)), d));
        },
        PhaseView::CommitMove { index, dest } => {
            let i = index as int;
            let target = pairs[i].1;
            let temp = s.temps[i];
            let tgt = targets(pairs);
            assert(tgt[i] == target);
            lemma_not_in_take(tgt, i);
            assert(s.temps.skip(i)[0] == temp);
            assert(d.contains_key(temp));
            if s.temps.skip(i).contains(target) {
                lemma_skip_contains(s.temps, i, target);
                let j = choose|j: int| 0 <= j < s.temps.len() && #[trigger] s.temps[j] == target;
                lemma_contains_index(tgt, i);
            }
            assert(!d.contains_key(target));
            let d2 = d.remove(temp).insert(target, d[temp]);
            assert(answers(d, ActionView::Rename(temp, target), EventView::Completed, d2));
        },
        _ => {},
    }
}

/// An execution under `Error` of pairs that can all be renamed, on a
/// well-behaved filesystem that hands out temporary paths other than the
/// pairs' own, takes at most six events per pair, and until it has
/// finished it only asks for what such a filesystem can do: a run that
/// goes no further has finished, and then it has succeeded
/// (`lemma_execute_error`).
pub proof fn lemma_error_execution_ends(pairs: Seq<PathPair>, events: Seq<EventView>, disks: Seq<Disk>)
    requires
        disks.len() > 0,
        renamable(pairs, disks[0]),
        temps_avoid(pairs, events),
        valid_run(start(initial_state(pairs), RenameOverwriteMode::Error).0,
            start(initial_state(pairs), RenameOverwriteMode::Error).1, events, disks),
    ensures
        events.len() <= 6 * pairs.len(),
        !(execution(pairs, RenameOverwriteMode::Error, events).1 is Finished) ==> (execution(
            pairs,
            RenameOverwriteMode::Error,
            events,
        ).1 matches StepView::Perform(a) && answerable(disks.last(), a)),
{
    let st = start(initial_state(pairs), RenameOverwriteMode::Error);
    lemma_error_start(pairs, disks[0]);
    lemma_error_run_bound(pairs, disks[0], st.0, st.1, events, disks);
    lemma_error_run(pairs, disks[0], st.0, st.1, events, disks);
    let end = run_end(st.0, st.1, events);
    if !(end.0.phase is Done) {
        lemma_error_progress(pairs, disks[0], end.0, end.1, disks.last());
    }
}

/// Turning the pairs around swaps their sources and targets.
proof fn lemma_reversed_paths(pairs: Seq<PathPair>)
    ensures
        sources(reversed(pairs)) == targets(pairs),
        targets(reversed(pairs)) == sources(pairs),
        reversed(reversed(pairs)) == pairs,
{
    assert(sources(reversed(pairs)) =~= targets(pairs));
    assert(targets(reversed(pairs)) =~= sources(pairs));
    assert(reversed(reversed(pairs)) =~= pairs);
}

/// After the pairs were moved, the reversed pairs can all be renamed.
proof fn lemma_reversed_renamable(pairs: Seq<PathPair>, d0: Disk, d1: Disk)
    requires
        renamable(pairs, d0),
        is_moved(d1, d0, pairs),
    ensures
        renamable(reversed(pairs), d1),
{
    let rev = reversed(pairs);
    let src = sources(pairs);
    let tgt = targets(pairs);
    lemma_reversed_paths(pairs);
    assert forall|p: Seq<char>| #[trigger] d1.contains_key(p) implies d1[p].kind != EntryKind::Absent by {
        if tgt.contains(p) {
            let j = choose|j: int| 0 <= j < tgt.len() && #[trigger] tgt[j] == p;
            assert(d1[pairs[j].1] == d0[pairs[j].0]);
            assert(d0.contains_key(pairs[j].0));
        }
    }
    assert forall|i: int| 0 <= i < rev.len() implies d1.contains_key(#[trigger] rev[i].0) by {
        assert(rev[i].0 == tgt[i]);
        lemma_contains_index(tgt, i);
    }
    assert forall|i: int| 0 <= i < rev.len() && d1.contains_key(#[trigger] rev[i].1) implies sources(rev).contains(rev[i].1) by {
        assert(rev[i].1 == src[i]);
        lemma_contains_index(src, i);
    }
    assert forall|i: int| 0 <= i < rev.len() implies (#[trigger] parent_of(rev[i].1)) is Some by {
        assert(rev[i].1 == pairs[i].0);
    }
    assert forall|i: int| 0 <= i < rev.len() implies (#[trigger] parent_of(rev[i].0)) is Some by {
        assert(rev[i].0 == pairs[i].1);
    }
}

/// Moving the pairs and then the reversed pairs gives back the disk.
proof fn lemma_moved_back(pairs: Seq<PathPair>, d0: Disk, d1: Disk, d2: Disk)
    requires
        renamable(pairs, d0),
        is_moved(d1, d0, pairs),
        is_moved(d2, d1, reversed(pairs)),
    ensures
        d2 == d0,
{
    let src = sources(pairs);
    let tgt = targets(pairs);
    lemma_reversed_paths(pairs);
    assert forall|p: Seq<char>| #[trigger] d2.contains_key(p) <==> d0.contains_key(p) by {
        if src.contains(p) {
            let j = choose|j: int| 0 <= j < src.len() && #[trigger] src[j] == p;
            assert(d0.contains_key(pairs[j].0));
        }
        if d0.contains_key(p) && tgt.contains(p) {
            let j = choose|j: int| 0 <= j < tgt.len() && #[trigger] tgt[j] == p;
            assert(d0.contains_key(pairs[j].1));
        }
    }
    assert forall|p: Seq<char>| #[trigger] d2.contains_key(p) implies d2[p] == d0[p] by {
        if src.contains(p) {
            let j = choose|j: int| 0 <= j < src.len() && #[trigger] src[j] == p;
            assert(reversed(pairs)[j] == (pairs[j].1, pairs[j].0));
            assert(d2[reversed(pairs)[j].1] == d1[reversed(pairs)[j].0]);
            assert(d1[pairs[j].1] == d0[pairs[j].0]);
        } else {
            if tgt.contains(p) {
                let j = choose|j: int| 0 <= j < tgt.len() && #[trigger] tgt[j] == p;
                assert(d0.contains_key(pairs[j].1));
            }
            assert(d1[p] == d0[p]);
        }
    }
    assert(d2 =~= d0);
}

/// A round trip: executing pairs that can all be renamed under `Error`,
/// then executing the operation made from its ledger under `Error`, on a
/// well-behaved filesystem that hands out temporary paths other than the
/// pairs' own, gives back the disk as it was, every entry with its content.
/// Both executions succeed once they have finished.
pub proof fn lemma_round_trip(
    pairs: Seq<PathPair>,
    events: Seq<EventView>,
    disks: Seq<Disk>,
    undo_events: Seq<EventView>,
    undo_disks: Seq<Disk>,
)
    requires
        disks.len() > 0,
        renamable(pairs, disks[0]),
        temps_avoid(pairs, events),
        temps_avoid(pairs, undo_events),
        finished_execution(pairs, RenameOverwriteMode::Error, events, disks),
        undo_disks[0] == disks.last(),
        finished_execution(reversed(pairs), RenameOverwriteMode::Error, undo_events, undo_disks),
    ensures
        execution(pairs, RenameOverwriteMode::Error, events).0.ledger == LedgerView::Reversible(reversed(pairs)),
        execution(pairs, RenameOverwriteMode::Error, events).1 == StepView::Finished(Ok(())),
        execution(reversed(pairs), RenameOverwriteMode::Error, undo_events).1 == StepView::Finished(Ok(())),
        is_moved(disks.last(), disks[0], pairs),
        undo_disks.last() == disks[0],
{
    lemma_execute_error(pairs, events, disks);
    lemma_reversed_renamable(pairs, disks[0], disks.last());
    lemma_reversed_paths(pairs);
    lemma_execute_error(reversed(pairs), undo_events, undo_disks);
    lemma_moved_back(pairs, disks[0], disks.last(), undo_disks.last());
}

/// Independent pairs: with distinct sources that exist, distinct targets
/// that are free, every path in a directory, executing under `Error` and
/// then undoing under `Error` succeed and give back the disk as it was.
pub proof fn lemma_independent_round_trip(
    pairs: Seq<PathPair>,
    events: Seq<EventView>,
    disks: Seq<Disk>,
    undo_events: Seq<EventView>,
    undo_disks: Seq<Disk>,
)
    requires
        disks.len() > 0,
        disk_wf(disks[0]),
        sources(pairs).no_duplicates(),
        targets(pairs).no_duplicates(),
        forall|i: int| 0 <= i < pairs.len() ==> disks[0].contains_key(#[trigger] pairs[i].0),
        forall|i: int| 0 <= i < pairs.len() ==> !disks[0].contains_key(#[trigger] pairs[i].1),
        forall|i: int| 0 <= i < pairs.len() ==> (#[trigger] parent_of(pairs[i].0)) is Some,
        forall|i: int| 0 <= i < pairs.len() ==> (#[trigger] parent_of(pairs[i].1)) is Some,
        temps_avoid(pairs, events),
        temps_avoid(pairs, undo_events),
        finished_execution(pairs, RenameOverwriteMode::Error, events, disks),
        undo_disks[0] == disks.last(),
        finished_execution(reversed(pairs), RenameOverwriteMode::Error, undo_events, undo_disks),
    ensures
        execution(pairs, RenameOverwriteMode::Error, events).1 == StepView::Finished(Ok(())),
        execution(reversed(pairs), RenameOverwriteMode::Error, undo_events).1 == StepView::Finished(Ok(())),
        forall|i: int| 0 <= i < pairs.len() ==> (#[trigger] disks.last()[pairs[i].1]) == disks[0][pairs[i].0],
        undo_disks.last() == disks[0],
{
    assert(renamable(pairs, disks[0]));
    lemma_round_trip(pairs, events, disks, undo_events, undo_disks);
}

/// Moves from one directory to another: with sources that exist in
/// directory `a`, free targets in directory `b`, all distinct, executing
/// under `Error` succeeds with every file's content at its target, and
/// undoing under `Error` moves everything back.
pub proof fn lemma_cross_directory_round_trip(
    pairs: Seq<PathPair>,
    a: Seq<char>,
    b: Seq<char>,
    events: Seq<EventView>,
    disks: Seq<Disk>,
    undo_events: Seq<EventView>,
    undo_disks: Seq<Disk>,
)
    requires
        disks.len() > 0,
        disk_wf(disks[0]),
        sources(pairs).no_duplicates(),
        targets(pairs).no_duplicates(),
        forall|i: int| 0 <= i < pairs.len() ==> (#[trigger] parent_of(pairs[i].0)) == Some(a),
        forall|i: int| 0 <= i < pairs.len() ==> (#[trigger] parent_of(pairs[i].1)) == Some(b),
        forall|i: int| 0 <= i < pairs.len() ==> disks[0].contains_key(#[trigger] pairs[i].0),
        forall|i: int| 0 <= i < pairs.len() ==> !disks[0].contains_key(#[trigger] pairs[i].1),
        temps_avoid(pairs, events),
        temps_avoid(pairs, undo_events),
        finished_execution(pairs, RenameOverwriteMode::Error, events, disks),
        undo_disks[0] == disks.last(),
        finished_execution(reversed(pairs), RenameOverwriteMode::Error, undo_events, undo_disks),
    ensures
        execution(pairs, RenameOverwriteMode::Error, events).1 == StepView::Finished(Ok(())),
        forall|i: int| 0 <= i < pairs.len() ==> (#[trigger] disks.last()[pairs[i].1]) == disks[0][pairs[i].0],
        forall|i: int| 0 <= i < pairs.len() ==> !disks.last().contains_key(#[trigger] pairs[i].0),
        undo_disks.last() == disks[0],
{
    assert(renamable(pairs, disks[0]));
    lemma_round_trip(pairs, events, disks, undo_events, undo_disks);
    let src = sources(pairs);
    let tgt = targets(pairs);
    assert forall|i: int| 0 <= i < pairs.len() implies !disks.last().contains_key(#[trigger] pairs[i].0) by {
        lemma_contains_index(src, i);
        assert(src[i] == pairs[i].0);
        if tgt.contains(pairs[i].0) {
            let j = choose|j: int| 0 <= j < tgt.len() && #[trigger] tgt[j] == pairs[i].0;
            assert(!disks[0].contains_key(pairs[j].1));
        }
    }
}

/// The pairs that renumber `f`: each `f[i]` becomes `f[i + 1]`.
pub open spec fn renumbering(f: Seq<Seq<char>>) -> Seq<PathPair> {
    Seq::new((f.len() - 1) as nat, |i: int| (f[i], f[i + 1]))
}

/// Renumbering in one execution: with distinct paths `f`, each in a
/// directory, all present but the last, which is free, the pairs
/// `(f[i], f[i + 1])` succeed in one execution under `Error`, each content
/// moving one number up, and undoing under `Error` restores the numbering.
pub proof fn lemma_renumbering_round_trip(
    f: Seq<Seq<char>>,
    events: Seq<EventView>,
    disks: Seq<Disk>,
    undo_events: Seq<EventView>,
    undo_disks: Seq<Disk>,
)
    requires
        f.len() >= 1,
        f.no_duplicates(),
        disks.len() > 0,
        disk_wf(disks[0]),
        forall|i: int| 0 <= i < f.len() - 1 ==> disks[0].contains_key(#[trigger] f[i]),
        !disks[0].contains_key(f.last()),
        forall|i: int| 0 <= i < f.len() ==> (#[trigger] parent_of(f[i])) is Some,
        temps_avoid(renumbering(f), events),
        temps_avoid(renumbering(f), undo_events),
        finished_execution(renumbering(f), RenameOverwriteMode::Error, events, disks),
        undo_disks[0] == disks.last(),
        finished_execution(reversed(renumbering(f)), RenameOverwriteMode::Error, undo_events, undo_disks),
    ensures
        execution(renumbering(f), RenameOverwriteMode::Error, events).1 == StepView::Finished(Ok(())),
        execution(reversed(renumbering(f)), RenameOverwriteMode::Error, undo_events).1 == StepView::Finished(Ok(())),
        forall|i: int| 0 <= i < f.len() - 1 ==> (#[trigger] disks.last()[f[i + 1]]) == disks[0][f[i]],
        undo_disks.last() == disks[0],
{
    let pairs = renumbering(f);
    let src = sources(pairs);
    let tgt = targets(pairs);
    assert forall|i: int, j: int| 0 <= i < src.len() && 0 <= j < src.len() && i != j implies src[i] != src[j] by {
        assert(src[i] == f[i] && src[j] == f[j]);
    }
    assert forall|i: int, j: int| 0 <= i < tgt.len() && 0 <= j < tgt.len() && i != j implies tgt[i] != tgt[j] by {
        assert(tgt[i] == f[i + 1] && tgt[j] == f[j + 1]);
    }
    assert forall|i: int| 0 <= i < pairs.len() && disks[0].contains_key(#[trigger] pairs[i].1) implies src.contains(pairs[i].1) by {
        assert(pairs[i].1 == f[i + 1]);
        if i + 1 == f.len() - 1 {
            assert(f[i + 1] == f.last());
        }
        assert(src[i + 1] == f[i + 1]);
        lemma_contains_index(src, i + 1);
    }
    assert forall|i: int| 0 <= i < pairs.len() implies (#[trigger] parent_of(pairs[i].1)) is Some by {
        assert(pairs[i].1 == f[i + 1]);
    }
    assert forall|i: int| 0 <= i < pairs.len() implies (#[trigger] parent_of(pairs[i].0)) is Some by {
        assert(pairs[i].0 == f[i]);
    }
    assert forall|i: int| 0 <= i < pairs.len() implies disks[0].contains_key(#[trigger] pairs[i].0) by {
        assert(pairs[i].0 == f[i]);
    }
    assert(renamable(pairs, disks[0]));
    lemma_round_trip(pairs, events, disks, undo_events, undo_disks);
    assert forall|i: int| 0 <= i < f.len() - 1 implies (#[trigger] disks.last()[f[i + 1]]) == disks[0][f[i]] by {
        assert(pairs[i] == (f[i], f[i + 1]));
        assert(disks.last()[pairs[i].1] == disks[0][pairs[i].0]);
    }
}


/// A run can be split after any of its events.
proof fn lemma_run_split(s: RenameState, step: StepView, events: Seq<EventView>, k: int)
    requires
        0 <= k <= events.len(),
    ensures
        run_end(s, step, events) == run_end(run_end(s, step, events.take(k)).0, run_end(s, step, events.take(k)).1, events.skip(k)),
    decreases k,
{
    if k == 0 {
        assert(events.take(0) =~= Seq::<EventView>::empty());
        assert(events.skip(0) =~= events);
    } else {
        let rest = events.drop_first();
        lemma_run_split(next(s, events[0]).0, next(s, events[0]).1, rest, k - 1);
        assert(events.take(k).drop_first() =~= rest.take(k - 1));
        assert(events.take(k)[0] == events[0]);
        assert(rest.skip(k - 1) =~= events.skip(k));
    }
}

/// A run keeps the operation's pairs and policy.
proof fn lemma_run_keeps(s: RenameState, step: StepView, events: Seq<EventView>)
    ensures
        run_end(s, step, events).0.pairs == s.pairs,
        run_end(s, step, events).0.mode == s.mode,
    decreases events.len(),
{
    if events.len() > 0 {
        lemma_run_keeps(next(s, events[0]).0, next(s, events[0]).1, events.drop_first());
    }
}

/// Once irreversible, an operation stays irreversible whatever follows.
pub proof fn lemma_irreversible_stays(s: RenameState, step: StepView, events: Seq<EventView>)
    requires
        s.ledger is Irreversible,
    ensures
        run_end(s, step, events).0.ledger is Irreversible,
    decreases events.len(),
{
    if events.len() > 0 {
        lemma_irreversible_stays(next(s, events[0]).0, next(s, events[0]).1, events.drop_first());
    }
}

/// Under `Overwrite`, once the filesystem reports the target of the pair
/// being committed as taken, the operation can no longer be undone: its
/// ledger is `Irreversible` at the end of the execution, whatever follows.
pub proof fn lemma_overwrite_irreversible(pairs: Seq<PathPair>, events: Seq<EventView>, k: int)
    requires
        0 <= k < events.len(),
        execution(pairs, RenameOverwriteMode::Overwrite, events.take(k)).0.phase is CommitProbe,
        events[k] matches EventView::Probed(kind) && kind != EntryKind::Absent,
    ensures
        execution(pairs, RenameOverwriteMode::Overwrite, events).0.ledger is Irreversible,
{
    let st = start(initial_state(pairs), RenameOverwriteMode::Overwrite);
    lemma_run_split(st.0, st.1, events, k);
    let mid = run_end(st.0, st.1, events.take(k));
    lemma_run_keeps(st.0, st.1, events.take(k));
    let after = next(mid.0, events[k]);
    assert(after.0.ledger is Irreversible);
    let rest = events.skip(k);
    assert(rest[0] == events[k]);
    assert(run_end(mid.0, mid.1, rest) == run_end(after.0, after.1, rest.drop_first()));
    lemma_irreversible_stays(after.0, after.1, rest.drop_first());
}

/// A failure while staging pair `i` ends the execution with the error for
/// that pair, the pairs before it staged and the others untouched: the
/// ledger holds, for each pair before `i`, its temporary path and its
/// source, and the engine asks nothing more of the filesystem.
pub proof fn lemma_staging_failure(s: RenameState, err: std::io::Error)
    requires
        rename_wf(s),
        s.phase is StageTemp || s.phase is StageClear || s.phase is StageMove,
    ensures
        ({
            let (s2, step) = next(s, EventView::Failed(err));
            let i = match s.phase {
                PhaseView::StageTemp { index } => index as int,
                PhaseView::StageClear { index, .. } => index as int,
                PhaseView::StageMove { index, .. } => index as int,
                _ => 0,
            };
            &&& step == StepView::Finished(Err(if s.phase is StageTemp {
                RenameErrorView::TargetDirectoryNotWritable(s.pairs[i], err)
            } else {
                RenameErrorView::IoError(s.pairs[i], err)
            }))
            &&& s2.ledger matches LedgerView::Reversible(entries) && entries.len() == i && forall|j: int|
                0 <= j < i ==> #[trigger] entries[j] == (s.temps[j], s.pairs[j].0)
            &&& s2.temps == s.temps
            &&& forall|e: EventView| #[trigger] next(s2, e).1 is Finished
        }),
{
    let (s2, step) = next(s, EventView::Failed(err));
    let entries = s.ledger->NotYetReversible_0;
    assert forall|j: int| 0 <= j < entries.len() implies #[trigger] entries[j] == (s.temps[j], s.pairs[j].0) by {
        assert(entries[j].0 == s.temps[j]);
        assert(entries[j].1 == s.pairs[j].0);
    }
}


// ---------------------------------------------------------------------
// One pair whose target is taken, under each policy.

/// The disk once the source of the pair was staged at `temp`.
pub open spec fn staged_one(d0: Disk, source: Seq<char>, temp: Seq<char>) -> Disk {
    d0.remove(source).insert(temp, d0[source])
}

/// What holds at the end of executing the single pair `(source, target)`,
/// whose target was taken, under `mode`: the state `s`, the last step and
/// the disk `d`, from the disk `d0`.
pub open spec fn taken_target_outcome(
    source: Seq<char>,
    target: Seq<char>,
    mode: RenameOverwriteMode,
    d0: Disk,
    s: RenameState,
    step: StepView,
    d: Disk,
) -> bool {
    match mode {
        RenameOverwriteMode::Error => {
            &&& step == StepView::Finished(Err(RenameErrorView::TargetFileAlreadyExists((source, target))))
            &&& d.contains_key(target) && d[target] == d0[target]
            &&& s.ledger matches LedgerView::Reversible(l) && l.len() == 1 && l[0].1 == source && d.contains_key(l[0].0)
                && d[l[0].0] == d0[source]
        },
        RenameOverwriteMode::Overwrite => {
            &&& step == StepView::Finished(Ok(()))
            &&& d.contains_key(target) && d[target] == d0[source]
            &&& !d.contains_key(source)
            &&& s.ledger is Irreversible
        },
        RenameOverwriteMode::ChangeFileName => {
            &&& step == StepView::Finished(Ok(()))
            &&& d.contains_key(target) && d[target] == d0[target]
            &&& s.ledger matches LedgerView::Reversible(l) && l.len() == 1 && l[0].1 == source && l[0].0 != target
                && d.contains_key(l[0].0) && d[l[0].0] == d0[source]
        },
    }
}

/// Where an execution of the single pair `(source, target)` under `mode`,
/// whose target is taken on `d0`, stands after `count` events.
pub open spec fn taken_target_inv(
    source: Seq<char>,
    target: Seq<char>,
    mode: RenameOverwriteMode,
    d0: Disk,
    s: RenameState,
    step: StepView,
    d: Disk,
    count: nat,
) -> bool {
    &&& s.pairs == seq![(source, target)]
    &&& s.mode == mode
    &&& rename_wf(s)
    &&& disk_wf(d)
    &&& s.kinds.len() == 1 ==> s.kinds[0] == kind_at(d0, source)
    &&& match s.phase {
        PhaseView::Preflight => d == d0 && step == StepView::Perform(ActionView::Probe(source)) && s.kinds.len() == 0,
        PhaseView::StageTemp { index } => d == d0 && step matches StepView::Perform(ActionView::CreateTemp(_, _)),
        PhaseView::StageClear { index, temp } => {
            &&& !d0.contains_key(temp)
            &&& d == d0.insert(temp, placeholder())
            &&& s.kinds[0] != EntryKind::File
            &&& step == StepView::Perform(ActionView::RemoveFile(temp))
        },
        PhaseView::StageMove { index, temp } => {
            &&& !d0.contains_key(temp)
            &&& (d == d0 || (d == d0.insert(temp, placeholder()) && s.kinds[0] == EntryKind::File))
            &&& step == StepView::Perform(ActionView::Rename(source, temp))
        },
        PhaseView::CommitProbe { index } => {
            &&& !d0.contains_key(s.temps[0])
            &&& d == staged_one(d0, source, s.temps[0])
            &&& s.ledger == LedgerView::NotYetReversible(seq![(s.temps[0], source)])
            &&& step == StepView::Perform(ActionView::Probe(target))
        },
        PhaseView::CommitSearch { index, resolver } => {
            &&& mode == RenameOverwriteMode::ChangeFileName
            &&& !d0.contains_key(s.temps[0])
            &&& d == staged_one(d0, source, s.temps[0])
            &&& s.ledger == LedgerView::NotYetReversible(seq![(s.temps[0], source)])
            &&& resolver.tries <= count
            &&& step == StepView::Perform(ActionView::Probe(resolver.candidate))
        },
        PhaseView::CommitClear { index, dest } => {
            &&& mode == RenameOverwriteMode::Overwrite
            &&& !d0.contains_key(s.temps[0])
            &&& d == staged_one(d0, source, s.temps[0])
            &&& s.ledger is Irreversible
            &&& dest == target
            &&& (step == StepView::Perform(ActionView::RemoveDirAll(target)) && d0[target].kind == EntryKind::Directory
                || step == StepView::Perform(ActionView::RemoveFile(target)) && d0[target].kind != EntryKind::Directory)
        },
        PhaseView::CommitMove { index, dest } => {
            &&& !d0.contains_key(s.temps[0])
            &&& step == StepView::Perform(ActionView::Rename(s.temps[0], dest))
            &&& if mode == RenameOverwriteMode::Overwrite {
                &&& dest == target
                &&& s.ledger is Irreversible
                &&& (d == staged_one(d0, source, s.temps[0]).remove(target) || (d == staged_one(d0, source, s.temps[0])
                    && d0[target].kind == EntryKind::File && d0[source].kind == EntryKind::File))
            } else {
                &&& mode == RenameOverwriteMode::ChangeFileName
                &&& d == staged_one(d0, source, s.temps[0])
                &&& !d.contains_key(dest)
                &&& s.ledger == LedgerView::NotYetReversible(seq![(s.temps[0], source)])
            }
        },
        PhaseView::Done => taken_target_outcome(source, target, mode, d0, s, step, d),
        _ => false,
    }
}

/// The facts about the pair that the execution relies on.
pub open spec fn taken_target_setup(source: Seq<char>, target: Seq<char>, mode: RenameOverwriteMode, d0: Disk) -> bool {
    &&& disk_wf(d0)
    &&& source != target
    &&& d0.contains_key(source)
    &&& d0.contains_key(target)
    &&& parent_of(target) is Some
    &&& mode == RenameOverwriteMode::ChangeFileName ==> crate::path::file_name_of(target) is Some
}

proof fn lemma_taken_target_start(source: Seq<char>, target: Seq<char>, mode: RenameOverwriteMode, d0: Disk)
    requires
        taken_target_setup(source, target, mode, d0),
    ensures
        taken_target_inv(source, target, mode, d0, start(initial_state(seq![(source, target)]), mode).0,
            start(initial_state(seq![(source, target)]), mode).1, d0, 0),
{
    crate::rename::lemma_start_wf(initial_state(seq![(source, target)]), mode);
}

proof fn lemma_taken_target_stage(
    source: Seq<char>,
    target: Seq<char>,
    mode: RenameOverwriteMode,
    d0: Disk,
    s: RenameState,
    step: StepView,
    e: EventView,
    d: Disk,
    d2: Disk,
    count: nat,
)
    requires
        taken_target_setup(source, target, mode, d0),
        taken_target_inv(source, target, mode, d0, s, step, d, count),
        s.phase is Preflight || s.phase is StageTemp || s.phase is StageClear || s.phase is StageMove,
        step matches StepView::Perform(a) && answers(d, a, e, d2),
    ensures
        taken_target_inv(source, target, mode, d0, next(s, e).0, next(s, e).1, d2, count + 1),
{
    crate::rename::lemma_next_wf(s, e);
    let pairs = seq![(source, target)];
    assert(pairs[0] == (source, target));
    match s.phase {
        PhaseView::Preflight => {
            let kinds = s.kinds.push(kind_at(d0, source));
            let present = present_of(kinds);
            assert forall|j: int| 0 <= j < present.len() implies #[trigger] present[j] by {}
            lemma_none_missing(pairs, present);
        },
        PhaseView::StageTemp { .. } => {
            if let EventView::TempCreated(t) = e {
                assert(d2.remove(t) =~= d0);
            }
        },
        PhaseView::StageClear { temp, .. } => {
            assert(d2 =~= d0);
        },
        PhaseView::StageMove { temp, .. } => {
            if e is Completed {
                assert(d2 =~= staged_one(d0, source, temp));
                assert(s.temps.push(temp)[0] == temp);
                let entries = s.ledger->NotYetReversible_0;
                assert(entries.push((temp, source)) =~= seq![(temp, source)]);
                if mode == RenameOverwriteMode::ChangeFileName {
                    assert(resolver_start(target).tries == 0);
                }
            }
        },
        _ => {},
    }
}

proof fn lemma_taken_target_commit(
    source: Seq<char>,
    target: Seq<char>,
    mode: RenameOverwriteMode,
    d0: Disk,
    s: RenameState,
    step: StepView,
    e: EventView,
    d: Disk,
    d2: Disk,
    count: nat,
)
    requires
        taken_target_setup(source, target, mode, d0),
        taken_target_inv(source, target, mode, d0, s, step, d, count),
        count < usize::MAX,
        s.phase is CommitProbe || s.phase is CommitSearch || s.phase is CommitClear || s.phase is CommitMove,
        step matches StepView::Perform(a) && answers(d, a, e, d2),
    ensures
        taken_target_inv(source, target, mode, d0, next(s, e).0, next(s, e).1, d2, count + 1),
{
    crate::rename::lemma_next_wf(s, e);
    let pairs = seq![(source, target)];
    assert(pairs[0] == (source, target));
    let temp = s.temps[0];
    let d1 = staged_one(d0, source, temp);
    assert(d1.contains_key(target) && d1[target] == d0[target]);
    assert(d1.contains_key(temp) && d1[temp] == d0[source]);
    assert(!d1.contains_key(source));
    match s.phase {
        PhaseView::CommitSearch { resolver, .. } => {
            if let EventView::Probed(k) = e {
                if k == EntryKind::Absent {
                    let c = resolver.candidate;
                    let d3 = d1.remove(temp).insert(c, d1[temp]);
                    assert(c != target);
                    assert(d3[target] == d0[target]);
                    let l = seq![(temp, source)].update(0, (c, source));
                    assert(l =~= seq![(c, source)]);
                }
            }
        },
        PhaseView::CommitMove { dest, .. } => {
            if e is Completed {
                if mode == RenameOverwriteMode::ChangeFileName {
                    let l = seq![(temp, source)].update(0, (dest, source));
                    assert(l =~= seq![(dest, source)]);
                    assert(dest != target);
                    assert(d2[target] == d0[target]);
                } else {
                    assert(!d2.contains_key(source));
                }
            }
        },
        _ => {},
    }
}

proof fn lemma_taken_target_run(
    source: Seq<char>,
    target: Seq<char>,
    mode: RenameOverwriteMode,
    d0: Disk,
    s: RenameState,
    step: StepView,
    events: Seq<EventView>,
    disks: Seq<Disk>,
    count: nat,
)
    requires
        taken_target_setup(source, target, mode, d0),
        valid_run(s, step, events, disks),
        taken_target_inv(source, target, mode, d0, s, step, disks[0], count),
        count + events.len() < usize::MAX,
    ensures
        taken_target_inv(source, target, mode, d0, run_end(s, step, events).0, run_end(s, step, events).1,
            disks.last(), count + events.len()),
    decreases events.len(),
{
    if events.len() > 0 {
        if s.phase is Preflight || s.phase is StageTemp || s.phase is StageClear || s.phase is StageMove {
            lemma_taken_target_stage(source, target, mode, d0, s, step, events[0], disks[0], disks[1], count);
        } else {
            lemma_taken_target_commit(source, target, mode, d0, s, step, events[0], disks[0], disks[1], count);
        }
        lemma_taken_target_run(source, target, mode, d0, next(s, events[0]).0, next(s, events[0]).1,
            events.drop_first(), disks.drop_first(), count + 1);
        assert(disks.drop_first().last() == disks.last());
    }
}

/// A pair whose target is taken, file or directory alike: under
/// `ChangeFileName` the source's entry lands at another free path and the
/// target is kept; under `Overwrite` the source's entry replaces the target
/// and the operation can no longer be undone; under `Error` the execution
/// fails with `TargetFileAlreadyExists`, the target keeps its content and
/// the ledger knows where the source's entry waits. The kinds of the two
/// entries play no part in which of these comes.
pub proof fn lemma_taken_target(
    source: Seq<char>,
    target: Seq<char>,
    mode: RenameOverwriteMode,
    events: Seq<EventView>,
    disks: Seq<Disk>,
)
    requires
        disks.len() > 0,
        taken_target_setup(source, target, mode, disks[0]),
        events.len() < usize::MAX,
        finished_execution(seq![(source, target)], mode, events, disks),
    ensures
        taken_target_outcome(source, target, mode, disks[0], execution(seq![(source, target)], mode, events).0,
            execution(seq![(source, target)], mode, events).1, disks.last()),
{
    let pairs = seq![(source, target)];
    let st = start(initial_state(pairs), mode);
    lemma_taken_target_start(source, target, mode, disks[0]);
    lemma_taken_target_run(source, target, mode, disks[0], st.0, st.1, events, disks, 0);
}

} // verus!
