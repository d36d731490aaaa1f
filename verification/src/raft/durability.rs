//! What the queued disk writes guarantee: the files follow the mirror, and
//! after a crash between or within them the files open again, with the write
//! that was cut off undone or completed.

use vstd::prelude::*;

use super::membership::last_config_of_parts;
use super::replay::{
    damaged, decoded, diverges, gap, good_end, good_entries, good_lines, kept_above, malformed, overlaps,
    replays, retained, torn, undamaged, unusable, Chunk,
};
use super::storage::{numbered_from, repairs, Durable, WriteModel};
use super::types::{HardState, LogEntry, LogIndex, SnapshotModel};

verus! {

/// One more write continues where the earlier ones left the files.
pub proof fn writes_compose<D>(
    files: Durable<D>,
    pending: Seq<WriteModel<D>>,
    write: WriteModel<D>,
)
    ensures
        files.after_all(pending.push(write)) == files.after_all(pending).after(write),
{
    assert(pending.push(write).drop_last() =~= pending);
}

/// Files that follow the mirror still do after a hard-state change.
pub proof fn files_follow_save_hard_state<D>(
    files: Durable<D>,
    pending: Seq<WriteModel<D>>,
    mirror: Durable<D>,
    hs: HardState,
)
    requires
        files.after_all(pending) == mirror,
    ensures
        files.after_all(pending.push(WriteModel::HardState(hs))) == mirror.with_hard_state(hs),
{
    writes_compose(files, pending, WriteModel::HardState(hs));
}

/// Files that follow the mirror still do after an append.
pub proof fn files_follow_append<D>(
    files: Durable<D>,
    pending: Seq<WriteModel<D>>,
    mirror: Durable<D>,
    entries: Seq<LogEntry>,
)
    requires
        files.after_all(pending) == mirror,
    ensures
        files.after_all(pending.push(WriteModel::AppendLog(entries))) == mirror.appended(entries),
{
    writes_compose(files, pending, WriteModel::AppendLog(entries));
}

/// Files that follow the mirror still do after a truncation.
pub proof fn files_follow_truncate_from<D>(
    files: Durable<D>,
    pending: Seq<WriteModel<D>>,
    mirror: Durable<D>,
    from: LogIndex,
)
    requires
        files.after_all(pending) == mirror,
    ensures
        files.after_all(
            pending.push(WriteModel::RewriteLog(mirror.truncated(from as int).log)),
        ) == mirror.truncated(from as int),
{
    writes_compose(files, pending, WriteModel::RewriteLog(mirror.truncated(from as int).log));
}

/// Files that follow the mirror still do after a compaction.
pub proof fn files_follow_compact_to<D>(
    files: Durable<D>,
    pending: Seq<WriteModel<D>>,
    mirror: Durable<D>,
    index: LogIndex,
    state: D,
)
    requires
        files.after_all(pending) == mirror,
    ensures
        files.after_all(
            pending.push(WriteModel::Snapshot(mirror.compaction(index, state))).push(
                WriteModel::RewriteLog(mirror.compacted(index, state).log),
            ),
        ) == mirror.compacted(index, state),
{
    let first = WriteModel::Snapshot(mirror.compaction(index, state));
    writes_compose(files, pending, first);
    writes_compose(
        files,
        pending.push(first),
        WriteModel::RewriteLog(mirror.compacted(index, state).log),
    );
}

/// Files that follow the mirror still do after installing a snapshot.
pub proof fn files_follow_install_snapshot<D>(
    files: Durable<D>,
    pending: Seq<WriteModel<D>>,
    mirror: Durable<D>,
    snapshot: SnapshotModel<D>,
)
    requires
        files.after_all(pending) == mirror,
    ensures
        files.after_all(
            pending.push(WriteModel::Snapshot(snapshot)).push(
                WriteModel::RewriteLog(mirror.installed(snapshot).log),
            ),
        ) == mirror.installed(snapshot),
{
    let first = WriteModel::Snapshot(snapshot);
    writes_compose(files, pending, first);
    writes_compose(
        files,
        pending.push(first),
        WriteModel::RewriteLog(mirror.installed(snapshot).log),
    );
}

/// Whether the lines of the log file decode to exactly `log`, followed by a
/// torn line if `cut_short`.
pub open spec fn lines_hold(
    chunks: Seq<Chunk>,
    parsed: Seq<Result<LogEntry, String>>,
    log: Seq<LogEntry>,
    cut_short: bool,
) -> bool {
    &&& chunks.len() == parsed.len()
    &&& parsed.len() == log.len() + if cut_short {
        1int
    } else {
        0
    }
    &&& forall|i: int|
        #![trigger parsed[i]]
        0 <= i < log.len() ==> chunks[i].complete && parsed[i] == Ok::<LogEntry, String>(log[i])
    &&& cut_short ==> unusable(chunks, parsed, parsed.len() - 1)
}

/// In a run of entries numbered from at most `boundary + 1` on, what lies
/// above `boundary` is the tail behind it.
pub proof fn tail_above(log: Seq<LogEntry>, first: int, boundary: int)
    requires
        numbered_from(log, first),
        first <= boundary + 1,
    ensures
        kept_above(log, boundary) == if boundary + 1 - first <= log.len() {
            log.skip(boundary + 1 - first)
        } else {
            Seq::empty()
        },
    decreases log.len(),
{
    reveal(Seq::filter);
    let keep = boundary + 1 - first;
    if log.len() > 0 {
        let init = log.drop_last();
        assert(numbered_from(init, first)) by {
            assert forall|i: int| 0 <= i < init.len() implies (#[trigger] init[i]).index == first
                + i by {
                assert(init[i] == log[i]);
            }
        }
        tail_above(init, first, boundary);
        assert(log.last() == log[log.len() - 1]);
        if keep < log.len() {
            assert(kept_above(log, boundary) =~= log.skip(keep));
        } else {
            assert(kept_above(log, boundary) =~= Seq::empty());
            assert(keep == log.len() ==> log.skip(keep) =~= Seq::empty());
        }
    } else {
        assert(kept_above(log, boundary) =~= Seq::empty());
        assert(keep == 0 ==> log.skip(keep) =~= Seq::empty());
    }
}

/// Entries numbered from at most right behind the boundary can be opened, and
/// come back as their part above it unless they diverge at the boundary.
pub proof fn overlapping_log_opens<D>(files: Durable<D>, first: int)
    requires
        numbered_from(files.log, first),
        first <= files.snapshot_index() + 1,
    ensures
        files.openable(),
        diverges(files.log, files.snapshot_index(), files.boundary_term()) <==> {
            let k = files.snapshot_index() - first;
            0 <= k < files.log.len() && files.snapshot is Some && files.log[k].term
                != files.snapshot_term()
        },
        overlaps(files.log, files.snapshot_index()) <==> files.log.len() > 0 && first
            <= files.snapshot_index(),
{
    let boundary = files.snapshot_index();
    let log = files.log;
    tail_above(log, first, boundary);
    assert forall|k: int| #![trigger log[k]] 0 < k < log.len() implies log[k].index == log[k
        - 1].index + 1 by {
        assert(log[k - 1].index == first + k - 1);
    }
    if 0 <= boundary - first < log.len() {
        assert(log[boundary - first].index == boundary);
    }
    if log.len() > 0 {
        assert(log[0].index == first);
    }
}

/// Files that continue their snapshot read back as they are.
pub proof fn reopened_same<D>(files: Durable<D>)
    requires
        files.wf(),
    ensures
        files.reopened() == files,
        files.openable(),
        !overlaps(files.log, files.snapshot_index()),
{
    overlapping_log_opens(files, files.snapshot_index() + 1);
    tail_above(files.log, files.snapshot_index() + 1, files.snapshot_index());
    assert(files.log.skip(0) =~= files.log);
}

/// What an openable log reads back as continues its snapshot.
pub proof fn reopened_is_whole<D>(files: Durable<D>)
    requires
        files.openable(),
    ensures
        files.reopened().wf(),
        files.reopened().reopened() == files.reopened(),
        files.reopened().openable(),
{
    let boundary = files.snapshot_index();
    let log = files.log;
    let kept = kept_above(log, boundary);
    if log.len() > 0 {
        let first = log[0].index as int;
        lemma_numbered(log, log.len() as int);
        if first <= boundary + 1 {
            tail_above(log, first, boundary);
        } else {
            lemma_all_above(log, boundary);
            assert(kept[0].index == first);
        }
        if kept.len() > 0 {
            assert(kept.last().index == boundary + kept.len());
        }
    } else {
        reveal(Seq::filter);
        assert(kept.len() == 0);
    }
    reopened_same(files.reopened());
}

proof fn lemma_numbered(log: Seq<LogEntry>, upto: int)
    requires
        0 < upto <= log.len(),
        forall|k: int|
            #![trigger log[k]]
            0 < k < log.len() ==> log[k].index == log[k - 1].index + 1,
    ensures
        forall|k: int| #![trigger log[k]] 0 <= k < upto ==> log[k].index == log[0].index + k,
    decreases upto,
{
    if upto > 1 {
        lemma_numbered(log, upto - 1);
        assert(log[upto - 1].index == log[upto - 2].index + 1);
    }
}

proof fn lemma_all_above(log: Seq<LogEntry>, boundary: int)
    requires
        forall|k: int| #![trigger log[k]] 0 <= k < log.len() ==> log[k].index > boundary,
    ensures
        kept_above(log, boundary) == log,
    decreases log.len(),
{
    reveal(Seq::filter);
    if log.len() > 0 {
        let init = log.drop_last();
        assert forall|k: int| #![trigger init[k]] 0 <= k < init.len() implies init[k].index > boundary by {
            assert(init[k] == log[k]);
        }
        lemma_all_above(init, boundary);
        assert(log.last() == log[log.len() - 1]);
        assert(kept_above(log, boundary) =~= log);
    } else {
        assert(kept_above(log, boundary) =~= log);
    }
}

/// An openable disk opens, whether or not a torn line lies behind its log, as
/// what it reads back as; and the repairs that opening queues bring the disk
/// there.
pub proof fn an_openable_disk_opens<D>(
    disk: Durable<D>,
    cut_short: bool,
    chunks: Seq<Chunk>,
    parsed: Seq<Result<LogEntry, String>>,
)
    requires
        disk.openable(),
        lines_hold(chunks, parsed, disk.log, cut_short),
    ensures
        replays(chunks, parsed, disk.snapshot_index() as u64),
        disk.with_log(
            retained(good_entries(chunks, parsed), disk.snapshot_index(), disk.boundary_term()),
        ) == disk.reopened(),
        disk.reopened().wf(),
        disk.after_all(
            repairs::<D>(chunks, parsed, disk.snapshot_index(), disk.reopened().log),
        ) == disk.reopened(),
{
    lines_read_back(chunks, parsed, disk.log, cut_short);
    lines_undamaged(chunks, parsed, disk.log, cut_short);
    reopened_is_whole(disk);
    repaired(disk, cut_short, chunks, parsed);
}

/// Lines that are numbered without a gap are undamaged.
proof fn lines_undamaged(
    chunks: Seq<Chunk>,
    parsed: Seq<Result<LogEntry, String>>,
    log: Seq<LogEntry>,
    cut_short: bool,
)
    requires
        lines_hold(chunks, parsed, log, cut_short),
        forall|k: int|
            #![trigger log[k]]
            0 < k < log.len() ==> log[k].index == log[k - 1].index + 1,
    ensures
        undamaged(chunks, parsed),
{
    assert forall|i: int| !#[trigger] damaged(chunks, parsed, i) by {
        if 0 <= i < log.len() {
            assert(parsed[i] == Ok::<LogEntry, String>(log[i]));
            if i > 0 {
                assert(parsed[i - 1] == Ok::<LogEntry, String>(log[i - 1]));
                assert(log[i].index == log[i - 1].index + 1);
            }
            assert(!malformed(parsed, i));
            assert(!gap(chunks, parsed, i));
        } else if i == log.len() && cut_short {
            assert(!gap(chunks, parsed, i));
        }
    }
}

/// The repairs that opening queues bring the disk to what it reads back as.
proof fn repaired<D>(
    disk: Durable<D>,
    cut_short: bool,
    chunks: Seq<Chunk>,
    parsed: Seq<Result<LogEntry, String>>,
)
    requires
        torn(chunks, parsed) == cut_short,
        good_entries(chunks, parsed) == disk.log,
    ensures
        disk.after_all(
            repairs::<D>(chunks, parsed, disk.snapshot_index(), disk.reopened().log),
        ) == disk.reopened(),
{
    let boundary = disk.snapshot_index();
    let log = disk.log;
    let kept = disk.reopened().log;
    let writes = repairs::<D>(chunks, parsed, boundary, kept);
    let trim = WriteModel::<D>::TrimLog(good_end(chunks, parsed));
    let none = Seq::<WriteModel<D>>::empty();
    writes_compose(disk, none, trim);
    assert(none.push(trim) =~= seq![trim]);
    let before = if cut_short {
        seq![trim]
    } else {
        none
    };
    assert(disk.after_all(before) == disk);
    if overlaps(log, boundary) {
        writes_compose(disk, before, WriteModel::RewriteLog(kept));
        assert(writes == before.push(WriteModel::RewriteLog(kept)));
    } else {
        assert(writes == before);
        lemma_all_above(log, boundary);
        assert(!diverges(log, boundary, disk.boundary_term()));
    }
}

/// What the lines of the log file decode to.
proof fn lines_read_back(
    chunks: Seq<Chunk>,
    parsed: Seq<Result<LogEntry, String>>,
    log: Seq<LogEntry>,
    cut_short: bool,
)
    requires
        lines_hold(chunks, parsed, log, cut_short),
    ensures
        torn(chunks, parsed) == cut_short,
        good_entries(chunks, parsed) == log,
{
    assert(torn(chunks, parsed) == cut_short) by {
        if !cut_short && parsed.len() > 0 {
            assert(parsed[parsed.len() - 1] == Ok::<LogEntry, String>(log[parsed.len() - 1]));
        }
    }
    assert(good_entries(chunks, parsed) =~= log) by {
        assert(good_lines(chunks, parsed) == log.len());
        assert forall|i: int| 0 <= i < log.len() implies #[trigger] decoded(
            parsed,
            log.len() as int,
        )[i] == log[i] by {
            assert(parsed[i] == Ok::<LogEntry, String>(log[i]));
        }
    }
}

/// A node that stops and reopens finds exactly the mirror it left, and has
/// nothing to repair.
pub proof fn reopening_gives_back_the_mirror<D>(
    mirror: Durable<D>,
    chunks: Seq<Chunk>,
    parsed: Seq<Result<LogEntry, String>>,
)
    requires
        mirror.wf(),
        lines_hold(chunks, parsed, mirror.log, false),
    ensures
        replays(chunks, parsed, mirror.snapshot_index() as u64),
        mirror.with_log(
            retained(good_entries(chunks, parsed), mirror.snapshot_index(), mirror.boundary_term()),
        ) == mirror,
        repairs::<D>(chunks, parsed, mirror.snapshot_index(), mirror.log) == Seq::<
            WriteModel<D>,
        >::empty(),
{
    reopened_same(mirror);
    an_openable_disk_opens(mirror, false, chunks, parsed);
    lines_read_back(chunks, parsed, mirror.log, false);
}

/// A crash in the middle of an append loses at most a suffix of the entries
/// being appended: the lines that got through come back, nothing that was
/// there before is lost, and a torn line is dropped.
pub proof fn interrupted_append_keeps_the_log<D>(
    mirror: Durable<D>,
    entries: Seq<LogEntry>,
    written: int,
    cut_short: bool,
    chunks: Seq<Chunk>,
    parsed: Seq<Result<LogEntry, String>>,
)
    requires
        mirror.wf(),
        numbered_from(entries, mirror.last_index() + 1),
        0 <= written <= entries.len(),
        mirror.last_index() + entries.len() <= u64::MAX,
        lines_hold(chunks, parsed, mirror.log + entries.take(written), cut_short),
    ensures
        mirror.after_part(WriteModel::AppendLog(entries), written).wf(),
        replays(chunks, parsed, mirror.snapshot_index() as u64),
        retained(
            good_entries(chunks, parsed),
            mirror.snapshot_index(),
            mirror.boundary_term(),
        ) == mirror.log + entries.take(written),
{
    let boundary = mirror.snapshot_index();
    let log = mirror.log + entries.take(written);
    let partial = mirror.with_log(log);
    assert forall|i: int| 0 <= i < log.len() implies (#[trigger] log[i]).index == boundary + 1
        + i by {
        if i < mirror.log.len() {
            assert(log[i] == mirror.log[i]);
        } else {
            assert(log[i] == entries[i - mirror.log.len()]);
        }
    }
    reopened_same(partial);
    an_openable_disk_opens(partial, cut_short, chunks, parsed);
    lines_read_back(chunks, parsed, log, cut_short);
}

/// A crash between a compaction's two writes (the new snapshot is there, the
/// old log still is) reopens into the compacted state, and the repairs that
/// opening queues complete it.
pub proof fn interrupted_compaction_completes<D>(
    mirror: Durable<D>,
    index: LogIndex,
    state: D,
    chunks: Seq<Chunk>,
    parsed: Seq<Result<LogEntry, String>>,
)
    requires
        mirror.wf(),
        mirror.holds(index as int),
        lines_hold(chunks, parsed, mirror.log, false),
    ensures
        ({
            let disk = mirror.after(WriteModel::Snapshot(mirror.compaction(index, state)));
            let done = mirror.compacted(index, state);
            &&& replays(chunks, parsed, index)
            &&& disk.reopened() == done
            &&& retained(
                good_entries(chunks, parsed),
                index as int,
                disk.boundary_term(),
            ) == done.log
            &&& disk.after_all(repairs::<D>(chunks, parsed, index as int, done.log)) == done
        }),
{
    let disk = mirror.after(WriteModel::Snapshot(mirror.compaction(index, state)));
    let first = mirror.snapshot_index() + 1;
    assert(numbered_from(mirror.log, first));
    overlapping_log_opens(disk, first);
    tail_above(mirror.log, first, index as int);
    assert(mirror.entries_from(index + 1) =~= mirror.log.skip(index + 1 - first));
    assert(disk.reopened() =~= mirror.compacted(index, state));
    an_openable_disk_opens(disk, false, chunks, parsed);
    lines_read_back(chunks, parsed, mirror.log, false);
}

/// A crash between the two writes of installing a snapshot reopens into the
/// installed state (a log that diverges at the boundary is cleared, one that
/// ends below it is replaced), and the repairs that opening queues complete
/// it.
pub proof fn interrupted_install_completes<D>(
    mirror: Durable<D>,
    snapshot: SnapshotModel<D>,
    chunks: Seq<Chunk>,
    parsed: Seq<Result<LogEntry, String>>,
)
    requires
        mirror.wf(),
        snapshot.last_included_index > mirror.snapshot_index(),
        lines_hold(chunks, parsed, mirror.log, false),
    ensures
        ({
            let disk = mirror.after(WriteModel::Snapshot(snapshot));
            let done = mirror.installed(snapshot);
            &&& replays(chunks, parsed, snapshot.last_included_index)
            &&& disk.reopened() == done
            &&& retained(
                good_entries(chunks, parsed),
                snapshot.last_included_index as int,
                disk.boundary_term(),
            ) == done.log
            &&& disk.after_all(
                repairs::<D>(chunks, parsed, snapshot.last_included_index as int, done.log),
            ) == done
        }),
{
    let disk = mirror.after(WriteModel::Snapshot(snapshot));
    snapshot_over_log(mirror, snapshot);
    an_openable_disk_opens(disk, false, chunks, parsed);
    lines_read_back(chunks, parsed, mirror.log, false);
}

/// A new snapshot over the old log reads back as the snapshot installed.
pub proof fn snapshot_over_log<D>(mirror: Durable<D>, snapshot: SnapshotModel<D>)
    requires
        mirror.wf(),
        snapshot.last_included_index > mirror.snapshot_index(),
    ensures
        mirror.after(WriteModel::Snapshot(snapshot)).openable(),
        mirror.after(WriteModel::Snapshot(snapshot)).reopened() == mirror.installed(snapshot),
{
    let disk = mirror.after(WriteModel::Snapshot(snapshot));
    let first = mirror.snapshot_index() + 1;
    let index = snapshot.last_included_index as int;
    assert(numbered_from(mirror.log, first));
    overlapping_log_opens(disk, first);
    tail_above(mirror.log, first, index);
    assert(disk.reopened().log =~= mirror.surviving(snapshot));
}

/// Compaction forgets nothing that can still be asked: the last index and
/// term stay, and so do the configuration in effect and the term of every
/// index from the boundary on.
pub proof fn compaction_keeps_the_answers<D>(
    mirror: Durable<D>,
    index: LogIndex,
    state: D,
)
    requires
        mirror.wf(),
        mirror.holds(index as int),
    ensures
        mirror.compacted(index, state).wf(),
        mirror.compacted(index, state).last_index() == mirror.last_index(),
        mirror.compacted(index, state).last_term() == mirror.last_term(),
        mirror.compacted(index, state).membership() == mirror.membership(),
        forall|i: int|
            i >= index ==> #[trigger] mirror.compacted(index, state).term_at(i)
                == mirror.term_at(i),
        forall|i: int|
            i > index && mirror.holds(i) ==> #[trigger] mirror.compacted(index, state).entry_at(i)
                == mirror.entry_at(i),
{
    let new = mirror.compacted(index, state);
    let skip = index - mirror.snapshot_index();
    assert(new.log =~= mirror.log.skip(skip));
    let whole = mirror.log.take(mirror.log.len() as int);
    assert(whole =~= mirror.log);
    assert(new.log.take(new.log.len() as int) =~= new.log);
    assert(mirror.log =~= mirror.log.take(skip) + new.log);
    last_config_of_parts(mirror.log.take(skip), new.log);
}

// ---- crashes ----

/// The files when a crash came after `done` of `writes`, with `lines` lines of
/// the next one if that is an append.
pub open spec fn crash_disk<D>(
    files: Durable<D>,
    writes: Seq<WriteModel<D>>,
    done: int,
    lines: int,
) -> Durable<D> {
    let disk = files.after_all(writes.take(done));
    if done < writes.len() {
        disk.after_part(writes[done], lines)
    } else {
        disk
    }
}

// ---- any sequence of calls ----

/// A call that changes the storage.
#[verifier::ext_equal]
#[verifier::reject_recursive_types(D)]
pub enum Call<D> {
    SaveHardState(HardState),
    Append(Seq<LogEntry>),
    TruncateFrom(LogIndex),
    CompactTo(LogIndex, D),
    InstallSnapshot(SnapshotModel<D>),
}

impl<D> Call<D> {
    /// Whether the call changes something: it is neither refused nor empty.
    pub open spec fn takes_effect(self, mirror: Durable<D>) -> bool {
        match self {
            Call::SaveHardState(_) => true,
            Call::Append(entries) => entries.len() > 0 && numbered_from(
                entries,
                mirror.last_index() + 1,
            ) && mirror.last_index() + entries.len() <= u64::MAX,
            Call::TruncateFrom(from) => mirror.holds(from as int),
            Call::CompactTo(index, _) => mirror.holds(index as int),
            Call::InstallSnapshot(s) => s.last_included_index > mirror.snapshot_index(),
        }
    }

    /// The mirror after the call.
    pub open spec fn mirror_after(self, mirror: Durable<D>) -> Durable<D> {
        if !self.takes_effect(mirror) {
            mirror
        } else {
            match self {
                Call::SaveHardState(hs) => mirror.with_hard_state(hs),
                Call::Append(entries) => mirror.appended(entries),
                Call::TruncateFrom(from) => mirror.truncated(from as int),
                Call::CompactTo(index, state) => mirror.compacted(index, state),
                Call::InstallSnapshot(s) => mirror.installed(s),
            }
        }
    }

    /// The disk writes that the call queues.
    pub open spec fn queues(self, mirror: Durable<D>) -> Seq<WriteModel<D>> {
        let after = self.mirror_after(mirror);
        if !self.takes_effect(mirror) {
            Seq::empty()
        } else {
            match self {
                Call::SaveHardState(hs) => seq![WriteModel::HardState(hs)],
                Call::Append(entries) => seq![WriteModel::AppendLog(entries)],
                Call::TruncateFrom(_) => seq![WriteModel::RewriteLog(after.log)],
                Call::CompactTo(index, state) => seq![
                    WriteModel::Snapshot(mirror.compaction(index, state)),
                    WriteModel::RewriteLog(after.log),
                ],
                Call::InstallSnapshot(s) => seq![
                    WriteModel::Snapshot(s),
                    WriteModel::RewriteLog(after.log),
                ],
            }
        }
    }
}

/// The mirror after several calls, in order.
pub open spec fn mirror_after_calls<D>(mirror: Durable<D>, calls: Seq<Call<D>>) -> Durable<D>
    decreases calls.len(),
{
    if calls.len() == 0 {
        mirror
    } else {
        calls.last().mirror_after(mirror_after_calls(mirror, calls.drop_last()))
    }
}

/// The disk once the writes of several calls are performed.
pub open spec fn disk_after_calls<D>(
    disk: Durable<D>,
    mirror: Durable<D>,
    calls: Seq<Call<D>>,
) -> Durable<D>
    decreases calls.len(),
{
    if calls.len() == 0 {
        disk
    } else {
        disk_after_calls(disk, mirror, calls.drop_last()).after_all(
            calls.last().queues(mirror_after_calls(mirror, calls.drop_last())),
        )
    }
}

/// One call: the disk follows the mirror, which stays whole.
proof fn call_followed<D>(mirror: Durable<D>, call: Call<D>)
    requires
        mirror.wf(),
    ensures
        mirror.after_all(call.queues(mirror)) == call.mirror_after(mirror),
        call.mirror_after(mirror).wf(),
{
    let none = Seq::<WriteModel<D>>::empty();
    let after = call.mirror_after(mirror);
    assert(mirror.after_all(none) == mirror);
    if call.takes_effect(mirror) {
        match call {
            Call::SaveHardState(hs) => {
                files_follow_save_hard_state(mirror, none, mirror, hs);
                assert(call.queues(mirror) =~= none.push(WriteModel::HardState(hs)));
            },
            Call::Append(entries) => {
                files_follow_append(mirror, none, mirror, entries);
                assert(call.queues(mirror) =~= none.push(WriteModel::AppendLog(entries)));
                assert forall|k: int| #![trigger after.log[k]] 0 <= k < after.log.len() implies
                    after.log[k].index == after.snapshot_index() + 1 + k by {
                    if k < mirror.log.len() {
                        assert(after.log[k] == mirror.log[k]);
                    } else {
                        assert(after.log[k] == entries[k - mirror.log.len()]);
                    }
                }
            },
            Call::TruncateFrom(from) => {
                files_follow_truncate_from(mirror, none, mirror, from);
                assert(call.queues(mirror) =~= none.push(WriteModel::RewriteLog(after.log)));
                assert forall|k: int| #![trigger after.log[k]] 0 <= k < after.log.len() implies
                    after.log[k].index == after.snapshot_index() + 1 + k by {
                    assert(after.log[k] == mirror.log[k]);
                }
            },
            Call::CompactTo(index, state) => {
                files_follow_compact_to(mirror, none, mirror, index, state);
                compaction_keeps_the_answers(mirror, index, state);
                assert(call.queues(mirror) =~= none.push(
                    WriteModel::Snapshot(mirror.compaction(index, state)),
                ).push(WriteModel::RewriteLog(after.log)));
            },
            Call::InstallSnapshot(s) => {
                files_follow_install_snapshot(mirror, none, mirror, s);
                snapshot_over_log(mirror, s);
                reopened_is_whole(mirror.after(WriteModel::Snapshot(s)));
                assert(call.queues(mirror) =~= none.push(WriteModel::Snapshot(s)).push(
                    WriteModel::RewriteLog(after.log),
                ));
            },
        }
    }
}

/// Storage is durable: whatever sequence of calls ran on an opened storage
/// (refused ones included), the files then hold the mirror, and reopening them
/// gives back its hard state, snapshot and entries, with nothing to repair, so
/// that opening again gives the same.
pub proof fn storage_is_durable<D>(
    opened: Durable<D>,
    calls: Seq<Call<D>>,
    chunks: Seq<Chunk>,
    parsed: Seq<Result<LogEntry, String>>,
)
    requires
        opened.wf(),
        lines_hold(chunks, parsed, disk_after_calls(opened, opened, calls).log, false),
    ensures
        ({
            let mirror = mirror_after_calls(opened, calls);
            &&& disk_after_calls(opened, opened, calls) == mirror
            &&& mirror.wf()
            &&& replays(chunks, parsed, mirror.snapshot_index() as u64)
            &&& retained(
                good_entries(chunks, parsed),
                mirror.snapshot_index(),
                mirror.boundary_term(),
            ) == mirror.log
            &&& repairs::<D>(chunks, parsed, mirror.snapshot_index(), mirror.log) == Seq::<
                WriteModel<D>,
            >::empty()
        }),
{
    calls_followed(opened, calls);
    reopening_gives_back_the_mirror(mirror_after_calls(opened, calls), chunks, parsed);
}

proof fn calls_followed<D>(opened: Durable<D>, calls: Seq<Call<D>>)
    requires
        opened.wf(),
    ensures
        disk_after_calls(opened, opened, calls) == mirror_after_calls(opened, calls),
        mirror_after_calls(opened, calls).wf(),
    decreases calls.len(),
{
    if calls.len() > 0 {
        calls_followed(opened, calls.drop_last());
        call_followed(mirror_after_calls(opened, calls.drop_last()), calls.last());
    }
}

} // verus!
