//! Scenario tests for the stream-writer registry: the append lifecycle,
//! stream deletion, the drain, and the error paths.

use parseable_staging::errors::StreamWriterError;
use parseable_staging::writer::{
    AppendAction, Batch, LocalWriter, SlotState, StreamWriters, WriterTable,
};

fn batch(id: u64, schema_id: u64) -> Batch {
    Batch { id, schema_id }
}

/// Looks up the slot state of a (stream, schema) pair directly in the table.
fn slot_state(w: &StreamWriters, stream: &str, schema: &str) -> Option<SlotState> {
    for entry in &w.table.streams {
        if entry.name == stream {
            for slot in &entry.slots {
                if slot.key == schema {
                    return Some(slot.writer.state);
                }
            }
        }
    }
    None
}

#[test]
fn writer_table_lookup_insert_delete() {
    let mut t = WriterTable::new();
    let orders = "orders".to_string();
    let v1 = "v1".to_string();
    let v2 = "v2".to_string();
    assert_eq!(t.get(&orders, &v1), None);

    let w = LocalWriter { poisoned: false, state: SlotState::Open { file: 0 } };
    t.insert(orders.clone(), v1.clone(), w);
    t.insert(orders.clone(), v2.clone(), LocalWriter {
        poisoned: false,
        state: SlotState::Empty,
    });
    let (i, j) = t.get(&orders, &v1).expect("slot for (orders, v1)");
    assert_eq!(t.streams[i].slots[j].writer, w);
    assert!(t.get(&orders, &v2).is_some());
    assert_eq!(t.get(&v1, &orders), None);

    // Deleting the stream removes both nested slots; doing it again is a
    // no-op.
    t.delete_stream(&orders);
    assert_eq!(t.get(&orders, &v1), None);
    assert_eq!(t.get(&orders, &v2), None);
    t.delete_stream(&orders);
    assert_eq!(t.streams.len(), 0);
}

#[test]
fn first_append_creates_file_then_second_appends_then_flush_then_fresh_file() {
    let mut w = StreamWriters::new();

    // Append B1 to ("orders", "v1") with no prior writer: a new file is
    // created containing B1 only, and the slot now holds an open writer.
    let r1 = w.append_to_local("orders", "v1", &batch(1, 7));
    assert_eq!(r1, Ok(AppendAction::Created { file: 0 }));
    assert_eq!(w.files.len(), 1);
    assert_eq!(w.files[0].writes, vec![1]);
    assert!(!w.files[0].finalized);
    assert_eq!(w.files[0].stream, "orders");
    assert_eq!(w.files[0].schema_key, "v1");
    assert_eq!(slot_state(&w, "orders", "v1"), Some(SlotState::Open { file: 0 }));

    // Append B2: same file, now B1 then B2, in that order.
    let r2 = w.append_to_local("orders", "v1", &batch(2, 7));
    assert_eq!(r2, Ok(AppendAction::Wrote { file: 0 }));
    assert_eq!(w.files.len(), 1);
    assert_eq!(w.files[0].writes, vec![1, 2]);

    // Drain: the file gains its footer, the slot becomes empty-but-present,
    // and the report names exactly the drained file.
    let outcome = w.unset_all().unwrap();
    assert_eq!(outcome.drained, vec![0]);
    assert!(!outcome.any_poisoned);
    assert!(w.files[0].finalized);
    assert_eq!(w.files[0].writes, vec![1, 2]);
    assert_eq!(slot_state(&w, "orders", "v1"), Some(SlotState::Empty));

    // Append B3: a new file is created containing only B3; the finalized
    // file is not reopened.
    let r3 = w.append_to_local("orders", "v1", &batch(3, 7));
    assert_eq!(r3, Ok(AppendAction::Created { file: 1 }));
    assert_eq!(w.files.len(), 2);
    assert_eq!(w.files[1].writes, vec![3]);
    assert!(!w.files[1].finalized);
    assert!(w.files[0].finalized);
    assert_eq!(w.files[0].writes, vec![1, 2]);
    assert_eq!(slot_state(&w, "orders", "v1"), Some(SlotState::Open { file: 1 }));
}

#[test]
fn delete_stream_then_append_recreates_fresh_writer() {
    let mut w = StreamWriters::new();
    w.append_to_local("orders", "v1", &batch(1, 7)).unwrap();
    w.append_to_local("orders", "v1", &batch(2, 7)).unwrap();

    w.delete_stream("orders").unwrap();
    assert_eq!(slot_state(&w, "orders", "v1"), None);
    // The old file is untouched: contents kept, still no footer.
    assert_eq!(w.files.len(), 1);
    assert_eq!(w.files[0].writes, vec![1, 2]);
    assert!(!w.files[0].finalized);

    // The next append recreates a fresh writer and file for the pair.
    let r = w.append_to_local("orders", "v1", &batch(3, 7));
    assert_eq!(r, Ok(AppendAction::Created { file: 1 }));
    assert_eq!(w.files[1].writes, vec![3]);
    // The old file was not reopened.
    assert_eq!(w.files[0].writes, vec![1, 2]);
    assert!(!w.files[0].finalized);
}

#[test]
fn delete_stream_without_entries_is_a_noop() {
    let mut w = StreamWriters::new();
    assert_eq!(w.delete_stream("never-seen"), Ok(()));
    assert_eq!(w.files.len(), 0);
    assert_eq!(w.table.streams.len(), 0);

    // Also idempotent after a real deletion.
    w.append_to_local("orders", "v1", &batch(1, 7)).unwrap();
    assert_eq!(w.delete_stream("orders"), Ok(()));
    assert_eq!(w.delete_stream("orders"), Ok(()));
    assert_eq!(w.table.streams.len(), 0);
    assert_eq!(w.files.len(), 1);
}

#[test]
fn distinct_pairs_do_not_disturb_each_other() {
    let mut w = StreamWriters::new();
    w.append_to_local("orders", "v1", &batch(1, 7)).unwrap();
    w.append_to_local("payments", "v1", &batch(2, 9)).unwrap();
    w.append_to_local("orders", "v2", &batch(3, 8)).unwrap();

    // Three pairs, three files, each with exactly its own batch.
    assert_eq!(w.files.len(), 3);
    assert_eq!(w.files[0].writes, vec![1]);
    assert_eq!(w.files[1].writes, vec![2]);
    assert_eq!(w.files[2].writes, vec![3]);

    // Appending to one pair leaves the others exactly as they were.
    w.append_to_local("payments", "v1", &batch(4, 9)).unwrap();
    assert_eq!(w.files[0].writes, vec![1]);
    assert_eq!(w.files[1].writes, vec![2, 4]);
    assert_eq!(w.files[2].writes, vec![3]);
    assert_eq!(slot_state(&w, "orders", "v1"), Some(SlotState::Open { file: 0 }));
    assert_eq!(slot_state(&w, "orders", "v2"), Some(SlotState::Open { file: 2 }));
}

#[test]
fn schema_mismatch_is_rejected_and_changes_nothing() {
    let mut w = StreamWriters::new();
    w.append_to_local("orders", "v1", &batch(1, 7)).unwrap();
    let r = w.append_to_local("orders", "v1", &batch(2, 8));
    assert_eq!(
        r,
        Err(StreamWriterError::Writer { expected_schema: 7, found_schema: 8 })
    );
    assert_eq!(w.files[0].writes, vec![1]);
}

#[test]
fn poisoned_structural_guard_refuses_append_and_drain() {
    let mut w = StreamWriters::new();
    w.append_to_local("orders", "v1", &batch(1, 7)).unwrap();
    w.poison_structural();

    let r = w.append_to_local("orders", "v1", &batch(2, 7));
    assert_eq!(r, Err(StreamWriterError::RwPoisoned));
    assert_eq!(w.files[0].writes, vec![1]);

    assert!(matches!(w.unset_all(), Err(StreamWriterError::RwPoisoned)));
    assert!(!w.files[0].finalized);

    // Stream deletion surfaces the poisoning as a recoverable error too.
    assert_eq!(w.delete_stream("orders"), Err(StreamWriterError::RwPoisoned));
    assert_eq!(w.table.streams.len(), 1);
}

#[test]
fn poisoned_slot_refuses_its_pair_but_not_others() {
    let mut w = StreamWriters::new();
    w.append_to_local("orders", "v1", &batch(1, 7)).unwrap();
    w.append_to_local("payments", "v1", &batch(2, 9)).unwrap();

    assert!(w.poison_slot("orders", "v1"));
    assert!(!w.poison_slot("orders", "unknown-key"));

    let r = w.append_to_local("orders", "v1", &batch(3, 7));
    assert_eq!(r, Err(StreamWriterError::MutexPoisoned));
    assert_eq!(w.files[0].writes, vec![1]);

    // The other pair still works.
    let r2 = w.append_to_local("payments", "v1", &batch(4, 9));
    assert_eq!(r2, Ok(AppendAction::Wrote { file: 1 }));
    assert_eq!(w.files[1].writes, vec![2, 4]);
}

#[test]
fn drain_skips_poisoned_slot_but_drains_the_rest() {
    let mut w = StreamWriters::new();
    w.append_to_local("orders", "v1", &batch(1, 7)).unwrap();
    w.append_to_local("payments", "v1", &batch(2, 9)).unwrap();
    assert!(w.poison_slot("orders", "v1"));

    // The sweep reports the poisoned slot but still drains the healthy one.
    let outcome = w.unset_all().unwrap();
    assert!(outcome.any_poisoned);
    assert_eq!(outcome.drained, vec![1]);
    assert!(!w.files[0].finalized);
    assert!(w.files[1].finalized);
    assert_eq!(slot_state(&w, "orders", "v1"), Some(SlotState::Open { file: 0 }));
    assert_eq!(slot_state(&w, "payments", "v1"), Some(SlotState::Empty));
}

#[test]
fn failed_creation_clears_the_slot_and_the_ledger_entry() {
    let mut w = StreamWriters::new();
    let r = w.append_to_local("orders", "v1", &batch(1, 7));
    assert_eq!(r, Ok(AppendAction::Created { file: 0 }));

    // The shell could not create the file: the slot goes back to empty and
    // the phantom ledger entry is marked failed and emptied.
    let e = w.create_failed("orders", "v1", 0, 13);
    assert_eq!(e, StreamWriterError::Io { os_code: 13 });
    assert_eq!(slot_state(&w, "orders", "v1"), Some(SlotState::Empty));
    assert!(w.files[0].failed);
    assert_eq!(w.files[0].writes, Vec::<u64>::new());

    // The next append lazily retries creation with a fresh file.
    let r2 = w.append_to_local("orders", "v1", &batch(2, 7));
    assert_eq!(r2, Ok(AppendAction::Created { file: 1 }));
    assert_eq!(w.files[1].writes, vec![2]);
    assert!(!w.files[1].failed);

    // A stale report that no longer matches the slot changes nothing.
    let e2 = w.create_failed("orders", "v1", 0, 13);
    assert_eq!(e2, StreamWriterError::Io { os_code: 13 });
    assert_eq!(slot_state(&w, "orders", "v1"), Some(SlotState::Open { file: 1 }));
    assert_eq!(w.files[1].writes, vec![2]);
}

#[test]
fn failed_write_takes_the_batch_back_off_the_ledger() {
    let mut w = StreamWriters::new();
    w.append_to_local("orders", "v1", &batch(1, 7)).unwrap();
    let r = w.append_to_local("orders", "v1", &batch(2, 7));
    assert_eq!(r, Ok(AppendAction::Wrote { file: 0 }));
    assert_eq!(w.files[0].writes, vec![1, 2]);

    // The shell could not serialize the second batch: the ledger takes it
    // back; the writer stays open for later appends.
    let e = w.write_failed("orders", "v1", 0, 2, 5);
    assert_eq!(e, StreamWriterError::Io { os_code: 5 });
    assert_eq!(w.files[0].writes, vec![1]);
    assert_eq!(slot_state(&w, "orders", "v1"), Some(SlotState::Open { file: 0 }));

    let r2 = w.append_to_local("orders", "v1", &batch(3, 7));
    assert_eq!(r2, Ok(AppendAction::Wrote { file: 0 }));
    assert_eq!(w.files[0].writes, vec![1, 3]);
}

#[test]
fn failed_finalize_is_reported_per_slot_and_taken_back() {
    let mut w = StreamWriters::new();
    w.append_to_local("orders", "v1", &batch(1, 7)).unwrap();
    w.append_to_local("payments", "v1", &batch(2, 9)).unwrap();
    let outcome = w.unset_all().unwrap();
    assert_eq!(outcome.drained, vec![0, 1]);
    assert!(w.files[0].finalized && w.files[1].finalized);

    // The shell failed to write one footer: that file alone loses its
    // footer claim; the other stays finalized.
    let e = w.finalize_failed(0, 28);
    assert_eq!(e, StreamWriterError::Io { os_code: 28 });
    assert!(!w.files[0].finalized);
    assert!(w.files[1].finalized);
}

#[test]
fn error_kinds_report_poisoning() {
    assert!(StreamWriterError::RwPoisoned.is_poison());
    assert!(StreamWriterError::MutexPoisoned.is_poison());
    assert!(!StreamWriterError::Io { os_code: 5 }.is_poison());
    assert!(
        !StreamWriterError::Writer { expected_schema: 1, found_schema: 2 }.is_poison()
    );
}

#[test]
fn empty_slot_reuses_entry_not_a_new_one() {
    let mut w = StreamWriters::new();
    w.append_to_local("orders", "v1", &batch(1, 7)).unwrap();
    w.unset_all().unwrap();
    assert_eq!(w.table.streams.len(), 1);
    assert_eq!(w.table.streams[0].slots.len(), 1);

    // Re-creation reuses the same slot: still one entry, one slot.
    w.append_to_local("orders", "v1", &batch(2, 5)).unwrap();
    assert_eq!(w.table.streams.len(), 1);
    assert_eq!(w.table.streams[0].slots.len(), 1);
    // A fresh writer may carry a new schema: the old file's schema stays.
    assert_eq!(w.files[0].schema_id, 7);
    assert_eq!(w.files[1].schema_id, 5);
}
