//! Cross-operation laws of the registry, proved from the step relations
//! that the operations' contracts state: how appends compose, what a stream
//! deletion or a drain leaves behind, and that unrelated pairs never
//! disturb each other.

use vstd::prelude::*;

use crate::errors::StreamWriterError;
use crate::writer::{
    append_step, create_failed_step, delete_step, drained_slot, file_open_in, unset_step,
    write_failed_step, AppendAction, Batch, DrainOutcome, FileModel, LocalWriter, RegistryModel,
    SlotState,
};

verus! {

/// `ms` is the trace of registry states under successive appends of the
/// batches `bs` to the one pair (s, k), with results `rs`.
pub open spec fn append_chain(
    ms: Seq<RegistryModel>,
    s: Seq<char>,
    k: Seq<char>,
    bs: Seq<Batch>,
    rs: Seq<Result<AppendAction, StreamWriterError>>,
) -> bool {
    &&& ms.len() == bs.len() + 1
    &&& rs.len() == bs.len()
    &&& forall|t: int|
        0 <= t < bs.len() ==> append_step(ms[t], ms[t + 1], s, k, bs[t], #[trigger] rs[t])
}

/// Per-pair total order: any number of appends of matching-schema batches
/// through one healthy open writer all succeed, and the writer's file then
/// holds exactly its prior contents followed by those batches, in append
/// order — none lost, none duplicated, none reordered.  No other file and
/// no table entry moves at all.
pub proof fn lemma_appends_keep_order(
    ms: Seq<RegistryModel>,
    s: Seq<char>,
    k: Seq<char>,
    bs: Seq<Batch>,
    rs: Seq<Result<AppendAction, StreamWriterError>>,
    f: usize,
)
    requires
        append_chain(ms, s, k, bs, rs),
        ms[0].rw_poisoned == false,
        ms[0].has_slot(s, k),
        ms[0].slot(s, k) == (LocalWriter { poisoned: false, state: SlotState::Open { file: f } }),
        f < ms[0].files.len(),
        forall|t: int|
            0 <= t < bs.len() ==> (#[trigger] bs[t]).schema_id == ms[0].files[f as int].schema_id,
    ensures
        forall|t: int|
            0 <= t < bs.len() ==> #[trigger] rs[t] == Ok::<AppendAction, StreamWriterError>(
                AppendAction::Wrote { file: f },
            ),
        ms.last().files[f as int].writes == ms[0].files[f as int].writes + bs.map_values(
            |b: Batch| b.id,
        ),
        ms.last().files.len() == ms[0].files.len(),
        forall|g: int|
            0 <= g < ms[0].files.len() && g != f ==> #[trigger] ms.last().files[g]
                == ms[0].files[g],
        ms.last().table == ms[0].table,
        ms.last().rw_poisoned == false,
    decreases bs.len(),
{
    if bs.len() == 0 {
        assert(ms.last() == ms[0]);
        assert(bs.map_values(|b: Batch| b.id) =~= Seq::<u64>::empty());
        assert(ms[0].files[f as int].writes + bs.map_values(|b: Batch| b.id) =~= ms[0].files[
            f as int
        ].writes);
    } else {
        let m0 = ms[0];
        let m1 = ms[1];
        let b0 = bs[0];
        assert(append_step(m0, m1, s, k, b0, rs[0]));
        assert(bs[0].schema_id == m0.files[f as int].schema_id);
        assert(rs[0] == Ok::<AppendAction, StreamWriterError>(AppendAction::Wrote { file: f }));
        assert(m1.files == m0.files.update(
            f as int,
            FileModel { writes: m0.files[f as int].writes.push(b0.id), ..m0.files[f as int] },
        ));
        let ms1 = ms.subrange(1, ms.len() as int);
        let bs1 = bs.subrange(1, bs.len() as int);
        let rs1 = rs.subrange(1, rs.len() as int);
        assert(append_chain(ms1, s, k, bs1, rs1)) by {
            assert forall|t: int| 0 <= t < bs1.len() implies append_step(
                ms1[t],
                ms1[t + 1],
                s,
                k,
                bs1[t],
                #[trigger] rs1[t],
            ) by {
                assert(ms1[t] == ms[t + 1]);
                assert(ms1[t + 1] == ms[t + 2]);
                assert(bs1[t] == bs[t + 1]);
                assert(rs1[t] == rs[t + 1]);
                assert(append_step(ms[t + 1], ms[t + 2], s, k, bs[t + 1], rs[t + 1]));
            }
        }
        assert(m1.table == m0.table);
        assert(m1.has_slot(s, k));
        assert(m1.slot(s, k) == m0.slot(s, k));
        assert(m1.files[f as int].schema_id == m0.files[f as int].schema_id);
        assert forall|t: int| 0 <= t < bs1.len() implies (#[trigger] bs1[t]).schema_id == m1.files[
            f as int
        ].schema_id by {
            assert(bs1[t] == bs[t + 1]);
        }
        lemma_appends_keep_order(ms1, s, k, bs1, rs1, f);
        assert(ms.last() == ms1.last());
        assert(ms1.last().files[f as int].writes == m1.files[f as int].writes + bs1.map_values(
            |b: Batch| b.id,
        ));
        assert(bs1.map_values(|b: Batch| b.id) =~= bs.map_values(|b: Batch| b.id).subrange(
            1,
            bs.len() as int,
        ));
        assert(m0.files[f as int].writes.push(b0.id) + bs1.map_values(|b: Batch| b.id) =~= m0.files[
            f as int
        ].writes + bs.map_values(|b: Batch| b.id));
        assert forall|t: int| 0 <= t < bs.len() implies #[trigger] rs[t] == Ok::<
            AppendAction,
            StreamWriterError,
        >(AppendAction::Wrote { file: f }) by {
            if t > 0 {
                assert(rs1[t - 1] == rs[t]);
            }
        }
        assert forall|g: int|
            0 <= g < m0.files.len() && g != f implies #[trigger] ms.last().files[g] == m0.files[g] by {
            assert(ms1.last().files[g] == m1.files[g]);
            assert(m1.files[g] == m0.files[g]);
        }
    }
}

/// Cross-pair isolation: an append to one pair leaves every other pair's
/// slot, and the file that slot feeds, exactly as they were.  Concurrent
/// producers on distinct pairs therefore never contend on each other's
/// state — only true per-pair contention serializes.
pub proof fn lemma_append_isolation(
    pre: RegistryModel,
    post: RegistryModel,
    s: Seq<char>,
    k: Seq<char>,
    b: Batch,
    r: Result<AppendAction, StreamWriterError>,
    s2: Seq<char>,
    k2: Seq<char>,
)
    requires
        pre.inv(),
        append_step(pre, post, s, k, b, r),
        s2 != s || k2 != k,
        pre.has_slot(s2, k2),
    ensures
        post.has_slot(s2, k2),
        post.slot(s2, k2) == pre.slot(s2, k2),
        pre.slot(s2, k2).state matches SlotState::Open { file } ==> post.files[file as int]
            == pre.files[file as int],
{
    assert(pre.slot_ok(s2, k2));
    if !pre.rw_poisoned && !pre.has_slot(s, k) {
        assert(post.has_slot(s2, k2));
    } else if !pre.rw_poisoned && !pre.slot(s, k).poisoned {
        match pre.slot(s, k).state {
            SlotState::Empty => {
                assert(post.has_slot(s2, k2));
            },
            SlotState::Open { file } => {
                if pre.files[file as int].schema_id == b.schema_id {
                    assert(pre.has_slot(s, k));
                    assert(pre.slot_ok(s, k));
                    assert(pre.files[file as int].stream == s);
                    assert(pre.files[file as int].schema_key == k);
                    match pre.slot(s2, k2).state {
                        SlotState::Open { file: f2 } => {
                            assert(pre.files[f2 as int].stream == s2);
                            assert(pre.files[f2 as int].schema_key == k2);
                            assert(f2 != file);
                        },
                        SlotState::Empty => {},
                    }
                }
            },
        }
    }
}

/// Deleting a stream and then appending to one of its pairs recreates a
/// fresh writer and a fresh file holding exactly the new batch; every file
/// that existed before, in particular the deleted writers' files, is
/// untouched and not reopened.
pub proof fn lemma_delete_then_append_recreates(
    pre: RegistryModel,
    mid: RegistryModel,
    post: RegistryModel,
    s: Seq<char>,
    k: Seq<char>,
    b: Batch,
    r: Result<AppendAction, StreamWriterError>,
)
    requires
        pre.rw_poisoned == false,
        delete_step(pre, mid, s, Ok::<(), StreamWriterError>(())),
        append_step(mid, post, s, k, b, r),
    ensures
        r == Ok::<AppendAction, StreamWriterError>(
            AppendAction::Created { file: pre.files.len() as usize },
        ),
        post.files.len() == pre.files.len() + 1,
        forall|g: int| 0 <= g < pre.files.len() ==> #[trigger] post.files[g] == pre.files[g],
        post.files.last().writes == seq![b.id],
        post.files.last().finalized == false,
        post.files.last().stream == s,
        post.files.last().schema_key == k,
        post.has_slot(s, k),
        post.slot(s, k) == (LocalWriter {
            poisoned: false,
            state: SlotState::Open { file: pre.files.len() as usize },
        }),
{
    assert(mid.table == pre.table.remove(s));
    assert(!mid.table.contains_key(s));
    assert(!mid.has_slot(s, k));
    assert(mid.files == pre.files);
    assert(post.table.contains_key(s));
    assert(post.table[s].contains_key(k));
}

/// Draining and then appending to a drained pair: the drained file keeps
/// its footer and its contents for good, and the append goes to a brand-new
/// file rather than reopening the finalized one.
pub proof fn lemma_flush_then_append_fresh_file(
    pre: RegistryModel,
    mid: RegistryModel,
    post: RegistryModel,
    s: Seq<char>,
    k: Seq<char>,
    b: Batch,
    r0: Result<DrainOutcome, StreamWriterError>,
    r: Result<AppendAction, StreamWriterError>,
    f: usize,
)
    requires
        pre.inv(),
        pre.rw_poisoned == false,
        pre.has_slot(s, k),
        pre.slot(s, k) == (LocalWriter { poisoned: false, state: SlotState::Open { file: f } }),
        unset_step(pre, mid, r0),
        append_step(mid, post, s, k, b, r),
    ensures
        f < pre.files.len(),
        mid.files[f as int].finalized,
        r0 matches Ok(o) ==> o.drained@.contains(f),
        mid.has_slot(s, k),
        mid.slot(s, k) == (LocalWriter { poisoned: false, state: SlotState::Empty }),
        r == Ok::<AppendAction, StreamWriterError>(
            AppendAction::Created { file: pre.files.len() as usize },
        ),
        pre.files.len() != f,
        post.files.len() == pre.files.len() + 1,
        post.files[f as int].finalized,
        post.files[f as int].writes == pre.files[f as int].writes,
{
    assert(pre.slot_ok(s, k));
    assert(f < pre.files.len());
    assert(pre.files[f as int].stream == s);
    assert(pre.files[f as int].schema_key == k);
    assert(file_open_in(pre, f as int));
    assert(mid.table.dom() == pre.table.dom());
    assert(mid.has_slot(s, k));
    assert(mid.slot(s, k) == drained_slot(pre.slot(s, k)));
    assert(mid.files[f as int] == (FileModel { finalized: true, ..pre.files[f as int] }));
    assert(mid.files.len() == pre.files.len());
    assert(mid.rw_poisoned == false);
    assert(post.files == mid.files.push(
        FileModel {
            stream: s,
            schema_key: k,
            schema_id: b.schema_id,
            writes: seq![b.id],
            finalized: false,
            failed: false,
        },
    ));
    assert(post.files[f as int] == mid.files[f as int]);
}

/// A failed creation registers nothing: once the shell reports that the
/// I/O for a creation failed, the pair's slot is empty again, the phantom
/// ledger entry is marked failed and records no writes, every file that
/// existed before is exactly as it was, and the next append to the pair
/// creates a fresh writer and file rather than reusing the failed one.
pub proof fn lemma_failed_creation_registers_nothing(
    pre: RegistryModel,
    mid: RegistryModel,
    post: RegistryModel,
    s: Seq<char>,
    k: Seq<char>,
    b: Batch,
    f: usize,
)
    requires
        pre.files.len() <= usize::MAX,
        append_step(pre, mid, s, k, b, Ok(AppendAction::Created { file: f })),
        create_failed_step(mid, post, s, k, f),
    ensures
        f == pre.files.len(),
        post.has_slot(s, k),
        post.slot(s, k) == (LocalWriter { poisoned: false, state: SlotState::Empty }),
        post.files[f as int].writes == Seq::<u64>::empty(),
        post.files[f as int].failed,
        !post.files[f as int].finalized,
        forall|g: int| 0 <= g < pre.files.len() ==> #[trigger] post.files[g] == pre.files[g],
        post.rw_poisoned == pre.rw_poisoned,
{
    assert(f == pre.files.len());
    assert(mid.has_slot(s, k));
    assert(mid.slot(s, k) == (LocalWriter { poisoned: false, state: SlotState::Open { file: f } }));
    assert(f < mid.files.len());
    assert(post.table.contains_key(s));
    assert(post.table[s].contains_key(k));
    assert forall|g: int| 0 <= g < pre.files.len() implies #[trigger] post.files[g] == pre.files[
        g
    ] by {
        assert(mid.files[g] == pre.files[g]);
    }
}

/// A failed write leaves no trace: once the shell reports that serializing
/// a batch into an open writer's file failed, the registry is exactly what
/// it was before that append was attempted.
pub proof fn lemma_failed_write_restores_the_registry(
    pre: RegistryModel,
    mid: RegistryModel,
    post: RegistryModel,
    s: Seq<char>,
    k: Seq<char>,
    b: Batch,
    f: usize,
)
    requires
        pre.inv(),
        append_step(pre, mid, s, k, b, Ok(AppendAction::Wrote { file: f })),
        write_failed_step(mid, post, s, k, f, b.id),
    ensures
        post == pre,
{
    assert(pre.has_slot(s, k));
    assert(pre.slot(s, k).state matches SlotState::Open { file } && file == f);
    assert(pre.slot_ok(s, k));
    assert(f < pre.files.len());
    assert(mid.files.len() == pre.files.len());
    assert(mid.table == pre.table);
    assert(mid.has_slot(s, k));
    assert(mid.slot(s, k) == pre.slot(s, k));
    assert(mid.files[f as int].writes == pre.files[f as int].writes.push(b.id));
    assert(mid.files[f as int].writes.len() > 0);
    assert(mid.files[f as int].writes.last() == b.id);
    assert(mid.files[f as int].writes.drop_last() =~= pre.files[f as int].writes);
    assert(post.files[f as int] =~= pre.files[f as int]);
    assert forall|g: int| 0 <= g < pre.files.len() implies post.files[g] == pre.files[g] by {
        if g != f {
            assert(mid.files[g] == pre.files[g]);
        }
    }
    assert(post.files =~= pre.files);
    assert(post =~= pre);
}

/// Deleting a stream that has no entry, under a healthy structural guard,
/// is a complete no-op: the registry afterwards is the registry before,
/// and no error is reported.
pub proof fn lemma_delete_absent_noop(
    pre: RegistryModel,
    post: RegistryModel,
    s: Seq<char>,
    r: Result<(), StreamWriterError>,
)
    requires
        delete_step(pre, post, s, r),
        pre.rw_poisoned == false,
        !pre.table.contains_key(s),
    ensures
        post == pre,
        r == Ok::<(), StreamWriterError>(()),
{
    assert(pre.table.remove(s) =~= pre.table);
    assert(post =~= pre);
}

} // verus!
