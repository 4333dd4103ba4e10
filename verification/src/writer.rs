//! The concurrent stream-writer registry: a two-level table keyed by stream
//! name and schema key, holding one guarded, lazily created writer slot per
//! (stream, schema) pair, together with the append / delete / flush-all
//! protocol that the ingestion path uses.
//!
//! The registry is the decision core: it tracks which staged file every
//! writer feeds, in what order batches were appended to it, and whether its
//! footer was written.  The unverified shell performs the actual directory
//! creation, file opens and columnar encoding that each returned action
//! calls for, and reports every failure back: guard failures through the
//! poisoning entry points, and I/O failures through the repair entry
//! points (`create_failed`, `write_failed`, `finalize_failed`), so the
//! ledger never claims more than the disk holds.

use vstd::prelude::*;

use crate::errors::StreamWriterError;

verus! {

/// What the registry reads of a columnar record batch: an identity for the
/// batch itself and a fingerprint of its schema.  The encoder establishes a
/// writer with the schema of the first batch and rejects later batches whose
/// schema differs.
#[derive(Debug, Clone, Copy, PartialEq, Eq, Structural)]
pub struct Batch {
    pub id: u64,
    pub schema_id: u64,
}

/// The lazily populated contents of one guarded slot: either no writer (a
/// prior writer was finalized and cleared, or none was created yet), or an
/// open writer feeding the staged file with the given index.
#[derive(Debug, Clone, Copy, PartialEq, Eq, Structural)]
pub enum SlotState {
    Empty,
    Open { file: usize },
}

/// One guarded writer slot.  `poisoned` records that a prior holder failed
/// while holding the slot's guard; every later acquire attempt is refused
/// with a typed error instead of exposing possibly inconsistent state.
#[derive(Debug, Clone, Copy, PartialEq, Eq, Structural)]
pub struct LocalWriter {
    pub poisoned: bool,
    pub state: SlotState,
}

/// One schema entry inside a stream's entry: the schema key and its slot.
#[derive(Debug)]
pub struct SchemaSlot {
    pub key: String,
    pub writer: LocalWriter,
}

/// One stream's entry: the stream name and its schema-keyed slots.
#[derive(Debug)]
pub struct StreamEntry {
    pub name: String,
    pub slots: Vec<SchemaSlot>,
}

/// The record the registry keeps of one staged file: which (stream, schema)
/// pair it belongs to, the schema its encoder was established with, the
/// batches serialized into it in write order, and whether its closing footer
/// was written.  A file without a footer is not independently readable.
#[derive(Debug)]
pub struct FileRecord {
    pub stream: String,
    pub schema_key: String,
    pub schema_id: u64,
    pub writes: Vec<u64>,
    pub finalized: bool,
    /// Creation of the backing file failed: the record is kept so that file
    /// indices stay stable, but nothing feeds it and no footer will exist.
    pub failed: bool,
}

/// Mathematical model of one staged file.
#[verifier::ext_equal]
pub ghost struct FileModel {
    pub stream: Seq<char>,
    pub schema_key: Seq<char>,
    pub schema_id: u64,
    pub writes: Seq<u64>,
    pub finalized: bool,
    pub failed: bool,
}

impl View for FileRecord {
    type V = FileModel;

    open spec fn view(&self) -> FileModel {
        FileModel {
            stream: self.stream@,
            schema_key: self.schema_key@,
            schema_id: self.schema_id,
            writes: self.writes@,
            finalized: self.finalized,
            failed: self.failed,
        }
    }
}

/// The two-level registry structure: stream name, then schema key, then the
/// guarded slot.  Mathematically a map of maps.
pub struct WriterTable {
    pub streams: Vec<StreamEntry>,
}

/// The inner map of one stream entry: schema key to guarded slot.
pub open spec fn slots_view(slots: Seq<SchemaSlot>) -> Map<Seq<char>, LocalWriter>
    decreases slots.len(),
{
    if slots.len() == 0 {
        Map::empty()
    } else {
        slots_view(slots.drop_last()).insert(slots.last().key@, slots.last().writer)
    }
}

/// The outer map: stream name to that stream's inner map.
pub open spec fn table_view(streams: Seq<StreamEntry>) -> Map<Seq<char>, Map<Seq<char>, LocalWriter>>
    decreases streams.len(),
{
    if streams.len() == 0 {
        Map::empty()
    } else {
        table_view(streams.drop_last()).insert(
            streams.last().name@,
            slots_view(streams.last().slots@),
        )
    }
}

impl View for WriterTable {
    type V = Map<Seq<char>, Map<Seq<char>, LocalWriter>>;

    open spec fn view(&self) -> Map<Seq<char>, Map<Seq<char>, LocalWriter>> {
        table_view(self.streams@)
    }
}

/// Schema keys within one entry name no key twice.
pub open spec fn slot_keys_unique(slots: Seq<SchemaSlot>) -> bool {
    forall|i: int, j: int|
        0 <= i < j < slots.len() ==> slots[i].key@ != slots[j].key@
}

/// Stream names in the table name no stream twice, and every entry's keys
/// are unique: each (stream, schema) pair owns at most one slot.
pub open spec fn stream_names_unique(streams: Seq<StreamEntry>) -> bool {
    forall|i: int, j: int|
        0 <= i < j < streams.len() ==> streams[i].name@ != streams[j].name@
}

impl WriterTable {
    /// Structural well-formedness: both key levels are duplicate-free.
    pub open spec fn wf(self) -> bool {
        &&& stream_names_unique(self.streams@)
        &&& forall|i: int|
            0 <= i < self.streams@.len() ==> slot_keys_unique(#[trigger] self.streams@[i].slots@)
    }
}

// ---------------------------------------------------------------------------
// View lemmas: how the map views follow the vector representation around.
// ---------------------------------------------------------------------------

/// A key is in the inner view exactly when some slot carries it.
pub proof fn lemma_slots_view_contains(slots: Seq<SchemaSlot>, k: Seq<char>)
    ensures
        slots_view(slots).contains_key(k) <==> exists|i: int|
            0 <= i < slots.len() && #[trigger] slots[i].key@ == k,
    decreases slots.len(),
{
    if slots.len() > 0 {
        lemma_slots_view_contains(slots.drop_last(), k);
        if slots.last().key@ == k {
            assert(slots[slots.len() - 1].key@ == k);
        } else if slots_view(slots).contains_key(k) {
            let i = choose|i: int| 0 <= i < slots.drop_last().len() && #[trigger] slots.drop_last()[i].key@ == k;
            assert(slots[i].key@ == k);
        } else {
            assert forall|i: int| 0 <= i < slots.len() implies #[trigger] slots[i].key@ != k by {
                if i < slots.len() - 1 {
                    assert(slots.drop_last()[i].key@ == slots[i].key@);
                }
            }
        }
    }
}

/// With unique keys, the inner view maps each slot's key to that slot's writer.
pub proof fn lemma_slots_view_at(slots: Seq<SchemaSlot>, i: int)
    requires
        slot_keys_unique(slots),
        0 <= i < slots.len(),
    ensures
        slots_view(slots).contains_key(slots[i].key@),
        slots_view(slots)[slots[i].key@] == slots[i].writer,
    decreases slots.len(),
{
    if i == slots.len() - 1 {
    } else {
        assert(slots.drop_last()[i] == slots[i]);
        lemma_slots_view_at(slots.drop_last(), i);
        assert(slots.last().key@ != slots[i].key@);
    }
}

/// A name is in the outer view exactly when some entry carries it.
pub proof fn lemma_table_view_contains(streams: Seq<StreamEntry>, s: Seq<char>)
    ensures
        table_view(streams).contains_key(s) <==> exists|i: int|
            0 <= i < streams.len() && #[trigger] streams[i].name@ == s,
    decreases streams.len(),
{
    if streams.len() > 0 {
        lemma_table_view_contains(streams.drop_last(), s);
        if streams.last().name@ == s {
            assert(streams[streams.len() - 1].name@ == s);
        } else if table_view(streams).contains_key(s) {
            let i = choose|i: int|
                0 <= i < streams.drop_last().len() && #[trigger] streams.drop_last()[i].name@ == s;
            assert(streams[i].name@ == s);
        } else {
            assert forall|i: int| 0 <= i < streams.len() implies #[trigger] streams[i].name@ != s by {
                if i < streams.len() - 1 {
                    assert(streams.drop_last()[i].name@ == streams[i].name@);
                }
            }
        }
    }
}

/// With unique names, the outer view maps each entry's name to its inner view.
pub proof fn lemma_table_view_at(streams: Seq<StreamEntry>, i: int)
    requires
        stream_names_unique(streams),
        0 <= i < streams.len(),
    ensures
        table_view(streams).contains_key(streams[i].name@),
        table_view(streams)[streams[i].name@] == slots_view(streams[i].slots@),
    decreases streams.len(),
{
    if i == streams.len() - 1 {
    } else {
        assert(streams.drop_last()[i] == streams[i]);
        lemma_table_view_at(streams.drop_last(), i);
        assert(streams.last().name@ != streams[i].name@);
    }
}

/// Overwriting slot `j` in place updates the inner view at its key.
pub proof fn lemma_slots_view_update(slots: Seq<SchemaSlot>, j: int, x: SchemaSlot)
    requires
        slot_keys_unique(slots),
        0 <= j < slots.len(),
        x.key@ == slots[j].key@,
    ensures
        slots_view(slots.update(j, x)) == slots_view(slots).insert(x.key@, x.writer),
    decreases slots.len(),
{
    let upd = slots.update(j, x);
    if j == slots.len() - 1 {
        assert(upd.drop_last() =~= slots.drop_last());
        assert(upd.last() == x);
        assert(slots_view(upd) == slots_view(slots.drop_last()).insert(x.key@, x.writer));
        assert(slots_view(slots).insert(x.key@, x.writer) =~= slots_view(slots.drop_last()).insert(
            x.key@,
            x.writer,
        ));
    } else {
        assert(upd.drop_last() =~= slots.drop_last().update(j, x));
        assert(upd.last() == slots.last());
        assert(slots.drop_last()[j] == slots[j]);
        lemma_slots_view_update(slots.drop_last(), j, x);
        assert(slots.last().key@ != x.key@);
        assert(slots_view(upd) == slots_view(slots.drop_last()).insert(x.key@, x.writer).insert(
            slots.last().key@,
            slots.last().writer,
        ));
        assert(slots_view(slots.drop_last()).insert(x.key@, x.writer).insert(
            slots.last().key@,
            slots.last().writer,
        ) =~= slots_view(slots).insert(x.key@, x.writer));
    }
}

/// Appending a slot extends the inner view with its key.
pub proof fn lemma_slots_view_push(slots: Seq<SchemaSlot>, x: SchemaSlot)
    ensures
        slots_view(slots.push(x)) == slots_view(slots).insert(x.key@, x.writer),
{
    assert(slots.push(x).drop_last() =~= slots);
    assert(slots.push(x).last() == x);
}

/// Overwriting entry `i` in place updates the outer view at its name.
pub proof fn lemma_table_view_update(streams: Seq<StreamEntry>, i: int, x: StreamEntry)
    requires
        stream_names_unique(streams),
        0 <= i < streams.len(),
        x.name@ == streams[i].name@,
    ensures
        table_view(streams.update(i, x)) == table_view(streams).insert(
            x.name@,
            slots_view(x.slots@),
        ),
    decreases streams.len(),
{
    let upd = streams.update(i, x);
    if i == streams.len() - 1 {
        assert(upd.drop_last() =~= streams.drop_last());
        assert(upd.last() == x);
        assert(table_view(streams).insert(x.name@, slots_view(x.slots@)) =~= table_view(
            streams.drop_last(),
        ).insert(x.name@, slots_view(x.slots@)));
    } else {
        assert(upd.drop_last() =~= streams.drop_last().update(i, x));
        assert(upd.last() == streams.last());
        assert(streams.drop_last()[i] == streams[i]);
        lemma_table_view_update(streams.drop_last(), i, x);
        assert(streams.last().name@ != x.name@);
        assert(table_view(streams.drop_last()).insert(x.name@, slots_view(x.slots@)).insert(
            streams.last().name@,
            slots_view(streams.last().slots@),
        ) =~= table_view(streams).insert(x.name@, slots_view(x.slots@)));
    }
}

/// Appending an entry extends the outer view with its name.
pub proof fn lemma_table_view_push(streams: Seq<StreamEntry>, x: StreamEntry)
    ensures
        table_view(streams.push(x)) == table_view(streams).insert(x.name@, slots_view(x.slots@)),
{
    assert(streams.push(x).drop_last() =~= streams);
    assert(streams.push(x).last() == x);
}

/// Removing entry `i` removes exactly its name from the outer view.
pub proof fn lemma_table_view_remove(streams: Seq<StreamEntry>, i: int)
    requires
        stream_names_unique(streams),
        0 <= i < streams.len(),
    ensures
        table_view(streams.remove(i)) == table_view(streams).remove(streams[i].name@),
    decreases streams.len(),
{
    let rem = streams.remove(i);
    if i == streams.len() - 1 {
        assert(rem =~= streams.drop_last());
        lemma_table_view_contains(streams.drop_last(), streams[i].name@);
        assert forall|j: int|
            0 <= j < streams.drop_last().len() implies #[trigger] streams.drop_last()[j].name@
            != streams[i].name@ by {
            assert(streams.drop_last()[j] == streams[j]);
        }
        assert(!table_view(streams.drop_last()).contains_key(streams[i].name@));
        assert(table_view(streams).remove(streams[i].name@) =~= table_view(streams.drop_last()));
    } else {
        assert(rem.drop_last() =~= streams.drop_last().remove(i));
        assert(rem.last() == streams.last());
        assert(streams.drop_last()[i] == streams[i]);
        lemma_table_view_remove(streams.drop_last(), i);
        assert(streams.last().name@ != streams[i].name@);
        assert(table_view(streams.drop_last()).remove(streams[i].name@).insert(
            streams.last().name@,
            slots_view(streams.last().slots@),
        ) =~= table_view(streams).remove(streams[i].name@));
    }
}

impl WriterTable {
    /// A fresh table with no streams.
    pub fn new() -> (r: Self)
        ensures
            r.wf(),
            r@ == Map::<Seq<char>, Map<Seq<char>, LocalWriter>>::empty(),
    {
        WriterTable { streams: Vec::new() }
    }

    /// Index of the entry for `stream`, if one exists.
    fn find_stream(&self, stream: &String) -> (r: Option<usize>)
        ensures
            match r {
                Some(i) => 0 <= i < self.streams@.len() && self.streams@[i as int].name@
                    == stream@,
                None => forall|i: int|
                    0 <= i < self.streams@.len() ==> (#[trigger] self.streams@[i].name@)
                        != stream@,
            },
    {
        let mut i: usize = 0;
        while i < self.streams.len()
            invariant
                0 <= i <= self.streams@.len(),
                forall|k: int| 0 <= k < i ==> (#[trigger] self.streams@[k].name@) != stream@,
            decreases self.streams@.len() - i,
        {
            if self.streams[i].name == *stream {
                return Some(i);
            }
            i += 1;
        }
        None
    }

    /// Index of the slot for `schema_key` within one stream entry, if any.
    fn find_slot_in(entry: &StreamEntry, schema_key: &String) -> (r: Option<usize>)
        ensures
            match r {
                Some(j) => 0 <= j < entry.slots@.len() && entry.slots@[j as int].key@
                    == schema_key@,
                None => forall|j: int|
                    0 <= j < entry.slots@.len() ==> (#[trigger] entry.slots@[j].key@)
                        != schema_key@,
            },
    {
        let mut j: usize = 0;
        while j < entry.slots.len()
            invariant
                0 <= j <= entry.slots@.len(),
                forall|l: int| 0 <= l < j ==> (#[trigger] entry.slots@[l].key@) != schema_key@,
            decreases entry.slots@.len() - j,
        {
            if entry.slots[j].key == *schema_key {
                return Some(j);
            }
            j += 1;
        }
        None
    }

    /// Read-only traversal of both map levels; creates nothing.  Returns the
    /// indices of the slot for the pair, so the caller can revisit it.
    pub fn get(&self, stream: &String, schema_key: &String) -> (r: Option<(usize, usize)>)
        requires
            self.wf(),
        ensures
            r is Some <==> (self@.contains_key(stream@) && self@[stream@].contains_key(
                schema_key@,
            )),
            match r {
                Some((i, j)) => {
                    &&& 0 <= i < self.streams@.len()
                    &&& 0 <= j < self.streams@[i as int].slots@.len()
                    &&& self.streams@[i as int].name@ == stream@
                    &&& self.streams@[i as int].slots@[j as int].key@ == schema_key@
                    &&& self.streams@[i as int].slots@[j as int].writer
                        == self@[stream@][schema_key@]
                },
                None => true,
            },
    {
        match self.find_stream(stream) {
            Some(i) => {
                proof {
                    lemma_table_view_at(self.streams@, i as int);
                }
                match Self::find_slot_in(&self.streams[i], schema_key) {
                    Some(j) => {
                        proof {
                            lemma_slots_view_at(self.streams@[i as int].slots@, j as int);
                        }
                        Some((i, j))
                    },
                    None => {
                        proof {
                            lemma_slots_view_contains(self.streams@[i as int].slots@, schema_key@);
                        }
                        None
                    },
                }
            },
            None => {
                proof {
                    lemma_table_view_contains(self.streams@, stream@);
                }
                None
            },
        }
    }

    /// Inserts a guarded slot for a (stream, schema) pair, creating the
    /// outer stream entry if it is absent.  Overwrites any prior slot at
    /// that key: callers ensure this is only invoked when no slot exists,
    /// or accept last-writer-wins.
    pub fn insert(&mut self, stream: String, schema_key: String, v: LocalWriter)
        requires
            old(self).wf(),
        ensures
            final(self).wf(),
            final(self)@ == old(self)@.insert(
                stream@,
                (if old(self)@.contains_key(stream@) {
                    old(self)@[stream@]
                } else {
                    Map::<Seq<char>, LocalWriter>::empty()
                }).insert(schema_key@, v),
            ),
    {
        let ghost pre = self.streams@;
        match self.find_stream(&stream) {
            Some(i) => {
                proof {
                    lemma_table_view_contains(pre, stream@);
                    lemma_table_view_at(pre, i as int);
                }
                let ghost pre_slots = pre[i as int].slots@;
                match Self::find_slot_in(&self.streams[i], &schema_key) {
                    Some(j) => {
                        let x = SchemaSlot { key: schema_key, writer: v };
                        proof {
                            lemma_slots_view_update(pre_slots, j as int, x);
                        }
                        self.streams[i].slots[j] = x;
                        proof {
                            let entry = self.streams@[i as int];
                            assert(entry.slots@ =~= pre_slots.update(j as int, x));
                            assert(self.streams@ =~= pre.update(i as int, entry));
                            assert(slot_keys_unique(entry.slots@));
                            lemma_table_view_update(pre, i as int, entry);
                            assert forall|a: int|
                                0 <= a < self.streams@.len() implies slot_keys_unique(
                                #[trigger] self.streams@[a].slots@,
                            ) by {
                                if a != i {
                                    assert(self.streams@[a] == pre[a]);
                                }
                            }
                        }
                    },
                    None => {
                        let x = SchemaSlot { key: schema_key, writer: v };
                        proof {
                            lemma_slots_view_push(pre_slots, x);
                        }
                        self.streams[i].slots.push(x);
                        proof {
                            let entry = self.streams@[i as int];
                            assert(entry.slots@ =~= pre_slots.push(x));
                            assert(self.streams@ =~= pre.update(i as int, entry));
                            assert(slot_keys_unique(entry.slots@));
                            lemma_table_view_update(pre, i as int, entry);
                            assert forall|a: int|
                                0 <= a < self.streams@.len() implies slot_keys_unique(
                                #[trigger] self.streams@[a].slots@,
                            ) by {
                                if a != i {
                                    assert(self.streams@[a] == pre[a]);
                                }
                            }
                        }
                    },
                }
            },
            None => {
                proof {
                    lemma_table_view_contains(pre, stream@);
                }
                let mut slots: Vec<SchemaSlot> = Vec::new();
                slots.push(SchemaSlot { key: schema_key, writer: v });
                let entry = StreamEntry { name: stream, slots };
                proof {
                    lemma_table_view_push(pre, entry);
                    assert(entry.slots@.drop_last() =~= Seq::<SchemaSlot>::empty());
                    assert(slots_view(Seq::<SchemaSlot>::empty())
                        == Map::<Seq<char>, LocalWriter>::empty());
                    assert(slots_view(entry.slots@) =~= Map::<Seq<char>, LocalWriter>::empty()
                        .insert(entry.slots@[0].key@, v));
                }
                self.streams.push(entry);
                proof {
                    assert forall|a: int|
                        0 <= a < self.streams@.len() implies slot_keys_unique(
                        #[trigger] self.streams@[a].slots@,
                    ) by {
                        if a < pre.len() {
                            assert(self.streams@[a] == pre[a]);
                        }
                    }
                    assert forall|a: int, b: int|
                        0 <= a < b < self.streams@.len() implies self.streams@[a].name@
                        != self.streams@[b].name@ by {
                        if b < pre.len() {
                            assert(self.streams@[a] == pre[a]);
                            assert(self.streams@[b] == pre[b]);
                        } else {
                            assert(self.streams@[a] == pre[a]);
                        }
                    }
                }
            },
        }
    }

    /// Removes the entire entry for `stream` and, transitively, all its
    /// slots.  No error if the stream is absent: deleting it twice, or
    /// deleting a stream that never wrote, is a no-op.
    pub fn delete_stream(&mut self, stream: &String)
        requires
            old(self).wf(),
        ensures
            final(self).wf(),
            final(self)@ == old(self)@.remove(stream@),
    {
        let ghost pre = self.streams@;
        match self.find_stream(stream) {
            Some(i) => {
                proof {
                    lemma_table_view_remove(pre, i as int);
                }
                self.streams.remove(i);
                proof {
                    assert(self.streams@ =~= pre.remove(i as int));
                    assert forall|a: int, b: int|
                        0 <= a < b < self.streams@.len() implies self.streams@[a].name@
                        != self.streams@[b].name@ by {
                        let a0 = if a < i { a } else { a + 1 };
                        let b0 = if b < i { b } else { b + 1 };
                        assert(self.streams@[a] == pre[a0]);
                        assert(self.streams@[b] == pre[b0]);
                    }
                    assert forall|a: int|
                        0 <= a < self.streams@.len() implies slot_keys_unique(
                        #[trigger] self.streams@[a].slots@,
                    ) by {
                        let a0 = if a < i { a } else { a + 1 };
                        assert(self.streams@[a] == pre[a0]);
                    }
                }
            },
            None => {
                proof {
                    lemma_table_view_contains(pre, stream@);
                    assert(table_view(pre).remove(stream@) =~= table_view(pre));
                }
            },
        }
    }
}

// ---------------------------------------------------------------------------
// The registry model and the append / delete / flush-all protocol.
// ---------------------------------------------------------------------------

/// What an append decided, and what the I/O shell must now do to the staged
/// file with the returned index: serialize the batch into the file that is
/// already open (`Wrote`), or open a fresh time-bucketed file, establish an
/// encoder with the batch's schema, and write the batch as its first entry
/// (`Created`).
#[derive(Debug, Clone, Copy, PartialEq, Eq, Structural)]
pub enum AppendAction {
    Wrote { file: usize },
    Created { file: usize },
}

/// What a drain reports back: which files gained their footer in this
/// sweep — one per drained writer, so the I/O shell finishes exactly those
/// encoders — and whether any slot guard was found poisoned and skipped.
#[derive(Debug)]
pub struct DrainOutcome {
    pub drained: Vec<usize>,
    pub any_poisoned: bool,
}

/// Mathematical model of the whole registry: the structural-guard poison
/// flag, the two-level slot map, and the record of every staged file ever
/// created, in creation order.
#[verifier::ext_equal]
pub ghost struct RegistryModel {
    pub rw_poisoned: bool,
    pub table: Map<Seq<char>, Map<Seq<char>, LocalWriter>>,
    pub files: Seq<FileModel>,
}

impl RegistryModel {
    /// A slot exists for the (stream, schema) pair.
    pub open spec fn has_slot(self, s: Seq<char>, k: Seq<char>) -> bool {
        self.table.contains_key(s) && self.table[s].contains_key(k)
    }

    /// The guarded slot of the pair (meaningful only when `has_slot`).
    pub open spec fn slot(self, s: Seq<char>, k: Seq<char>) -> LocalWriter {
        self.table[s][k]
    }

    /// An open slot's file index is in bounds, the file has no footer yet,
    /// and the file belongs to exactly the pair whose slot feeds it.
    pub open spec fn slot_ok(self, s: Seq<char>, k: Seq<char>) -> bool {
        match self.slot(s, k).state {
            SlotState::Empty => true,
            SlotState::Open { file } => {
                &&& file < self.files.len()
                &&& !self.files[file as int].finalized
                &&& self.files[file as int].stream == s
                &&& self.files[file as int].schema_key == k
            },
        }
    }

    /// Registry invariant, maintained by every operation.
    pub open spec fn inv(self) -> bool {
        forall|s: Seq<char>, k: Seq<char>| #[trigger] self.has_slot(s, k) ==> self.slot_ok(s, k)
    }
}

/// The table after the slot of one (stream, schema) pair is set, the outer
/// entry being created when absent.
pub open spec fn table_set_slot(
    t: Map<Seq<char>, Map<Seq<char>, LocalWriter>>,
    s: Seq<char>,
    k: Seq<char>,
    w: LocalWriter,
) -> Map<Seq<char>, Map<Seq<char>, LocalWriter>> {
    t.insert(
        s,
        (if t.contains_key(s) {
            t[s]
        } else {
            Map::<Seq<char>, LocalWriter>::empty()
        }).insert(k, w),
    )
}

/// The effect of an append that created a writer: a fresh file holding
/// exactly the one batch, and the pair's slot now open on it.  Covers both
/// the present-but-empty slot (a prior writer was finalized and cleared)
/// and the absent slot (first ever write to the pair).
pub open spec fn append_creates(
    pre: RegistryModel,
    post: RegistryModel,
    s: Seq<char>,
    k: Seq<char>,
    b: Batch,
    r: Result<AppendAction, StreamWriterError>,
) -> bool {
    &&& r == Ok::<AppendAction, StreamWriterError>(
        AppendAction::Created { file: pre.files.len() as usize },
    )
    &&& post.rw_poisoned == pre.rw_poisoned
    &&& post.files == pre.files.push(
        FileModel {
            stream: s,
            schema_key: k,
            schema_id: b.schema_id,
            writes: seq![b.id],
            finalized: false,
            failed: false,
        },
    )
    &&& post.table == table_set_slot(
        pre.table,
        s,
        k,
        LocalWriter { poisoned: false, state: SlotState::Open { file: pre.files.len() as usize } },
    )
}

/// The full append protocol, as a relation between the registry before and
/// after one `append_to_local(s, k, b)` call returning `r`:
/// - a poisoned structural guard refuses the call and changes nothing;
/// - a poisoned slot guard refuses the call and changes nothing;
/// - an open writer with the matching schema gets the batch appended to its
///   file, after every batch already there;
/// - an open writer with another schema rejects the batch unchanged;
/// - an empty or absent slot gets a fresh writer and a fresh file holding
///   exactly this batch.
pub open spec fn append_step(
    pre: RegistryModel,
    post: RegistryModel,
    s: Seq<char>,
    k: Seq<char>,
    b: Batch,
    r: Result<AppendAction, StreamWriterError>,
) -> bool {
    if pre.rw_poisoned {
        r == Err::<AppendAction, StreamWriterError>(StreamWriterError::RwPoisoned) && post == pre
    } else if !pre.has_slot(s, k) {
        append_creates(pre, post, s, k, b, r)
    } else if pre.slot(s, k).poisoned {
        r == Err::<AppendAction, StreamWriterError>(StreamWriterError::MutexPoisoned) && post
            == pre
    } else {
        match pre.slot(s, k).state {
            SlotState::Empty => append_creates(pre, post, s, k, b, r),
            SlotState::Open { file } => {
                if pre.files[file as int].schema_id == b.schema_id {
                    &&& r == Ok::<AppendAction, StreamWriterError>(AppendAction::Wrote { file })
                    &&& post.rw_poisoned == pre.rw_poisoned
                    &&& post.table == pre.table
                    &&& post.files == pre.files.update(
                        file as int,
                        FileModel {
                            writes: pre.files[file as int].writes.push(b.id),
                            ..pre.files[file as int]
                        },
                    )
                } else {
                    &&& r == Err::<AppendAction, StreamWriterError>(
                        StreamWriterError::Writer {
                            expected_schema: pre.files[file as int].schema_id,
                            found_schema: b.schema_id,
                        },
                    )
                    &&& post == pre
                }
            },
        }
    }
}

/// The repair demanded when the shell reports that the I/O of a
/// `Created { file }` action failed (directory creation, file open, encoder
/// construction, or the first write): the pair's slot goes back to empty so
/// the next append lazily retries creation, and the ledger entry — which
/// never made it to disk — is marked failed and emptied.  A report that no
/// longer matches the pair's slot is stale and changes nothing.
pub open spec fn create_failed_step(
    pre: RegistryModel,
    post: RegistryModel,
    s: Seq<char>,
    k: Seq<char>,
    file: usize,
) -> bool {
    if pre.has_slot(s, k) && pre.slot(s, k) == (LocalWriter {
        poisoned: false,
        state: SlotState::Open { file },
    }) && file < pre.files.len() {
        &&& post.rw_poisoned == pre.rw_poisoned
        &&& post.table == table_set_slot(
            pre.table,
            s,
            k,
            LocalWriter { poisoned: false, state: SlotState::Empty },
        )
        &&& post.files == pre.files.update(
            file as int,
            FileModel { writes: Seq::<u64>::empty(), failed: true, ..pre.files[file as int] },
        )
    } else {
        post == pre
    }
}

/// The repair demanded when the shell reports that serializing one batch
/// into an open writer's file failed: the batch the file never received is
/// taken back off the ledger; the writer stays in its slot, as a later
/// append may still serialize into it.  A stale report changes nothing.
pub open spec fn write_failed_step(
    pre: RegistryModel,
    post: RegistryModel,
    s: Seq<char>,
    k: Seq<char>,
    file: usize,
    batch_id: u64,
) -> bool {
    if pre.has_slot(s, k) && pre.slot(s, k) == (LocalWriter {
        poisoned: false,
        state: SlotState::Open { file },
    }) && file < pre.files.len() && pre.files[file as int].writes.len() > 0 && pre.files[
        file as int
    ].writes.last() == batch_id {
        &&& post.rw_poisoned == pre.rw_poisoned
        &&& post.table == pre.table
        &&& post.files == pre.files.update(
            file as int,
            FileModel { writes: pre.files[file as int].writes.drop_last(), ..pre.files[file as int] },
        )
    } else {
        post == pre
    }
}

/// The repair demanded when the shell reports that writing a file's footer
/// failed during the drain: the ledger takes the footer claim back, so the
/// file is still recorded as not independently readable.
pub open spec fn finalize_failed_step(pre: RegistryModel, post: RegistryModel, file: usize) -> bool {
    if file < pre.files.len() {
        &&& post.rw_poisoned == pre.rw_poisoned
        &&& post.table == pre.table
        &&& post.files == pre.files.update(
            file as int,
            FileModel { finalized: false, ..pre.files[file as int] },
        )
    } else {
        post == pre
    }
}

/// The effect of one `delete_stream(s)` call: with a healthy structural
/// guard, the stream's entire outer entry and all its slots are gone, and
/// nothing else moved — every staged file, in particular any file a removed
/// writer was feeding, is untouched.  A poisoned structural guard refuses
/// the call with a typed, recoverable error and changes nothing.
pub open spec fn delete_step(
    pre: RegistryModel,
    post: RegistryModel,
    s: Seq<char>,
    r: Result<(), StreamWriterError>,
) -> bool {
    if pre.rw_poisoned {
        r == Err::<(), StreamWriterError>(StreamWriterError::RwPoisoned) && post == pre
    } else {
        &&& r == Ok::<(), StreamWriterError>(())
        &&& post.rw_poisoned == pre.rw_poisoned
        &&& post.table == pre.table.remove(s)
        &&& post.files == pre.files
    }
}

/// A guarded slot after the drain: a poisoned slot is left alone, any other
/// is cleared back to empty (but kept in the table).
pub open spec fn drained_slot(w: LocalWriter) -> LocalWriter {
    if w.poisoned {
        w
    } else {
        LocalWriter { poisoned: false, state: SlotState::Empty }
    }
}

/// File `f` is fed by a healthy open writer in `pre`, so a drain finalizes it.
pub open spec fn file_open_in(pre: RegistryModel, f: int) -> bool {
    &&& pre.has_slot(pre.files[f].stream, pre.files[f].schema_key)
    &&& pre.slot(pre.files[f].stream, pre.files[f].schema_key) == LocalWriter {
        poisoned: false,
        state: SlotState::Open { file: f as usize },
    }
}

/// What one drain did to the registry: every healthy slot is cleared back
/// to empty-but-present (no entry is removed), every file fed by a healthy
/// open writer gains its footer, no file loses contents, and poisoned slots
/// are left exactly as they were.
pub open spec fn drain_effect(pre: RegistryModel, post: RegistryModel) -> bool {
    &&& post.rw_poisoned == false
    &&& post.table.dom() == pre.table.dom()
    &&& forall|s: Seq<char>|
        pre.table.contains_key(s) ==> (#[trigger] post.table[s]).dom() == pre.table[s].dom()
    &&& forall|s: Seq<char>, k: Seq<char>|
        #[trigger] pre.has_slot(s, k) ==> post.table[s][k] == drained_slot(pre.slot(s, k))
    &&& post.files.len() == pre.files.len()
    &&& forall|f: int|
        0 <= f < pre.files.len() ==> #[trigger] post.files[f] == FileModel {
            finalized: pre.files[f].finalized || file_open_in(pre, f),
            ..pre.files[f]
        }
}

/// `drained` lists, without duplicates, exactly the files that a drain of
/// `pre` finalizes: those fed by a healthy open writer.
pub open spec fn drained_files_listed(pre: RegistryModel, drained: Seq<usize>) -> bool {
    &&& drained.no_duplicates()
    &&& forall|t: int|
        0 <= t < drained.len() ==> (#[trigger] drained[t]) < pre.files.len() && file_open_in(
            pre,
            drained[t] as int,
        )
    &&& forall|f: int|
        0 <= f < pre.files.len() && file_open_in(pre, f) ==> drained.contains(f as usize)
}

/// The effect of one `unset_all()` call: with a healthy structural guard
/// the drain happens (`drain_effect`), and the report lists which files
/// gained their footer — so the I/O shell knows exactly which encoders to
/// finish — and whether any slot guard was found poisoned and skipped; the
/// remaining slots are drained regardless, so one failed writer never
/// aborts draining the rest.
pub open spec fn unset_step(
    pre: RegistryModel,
    post: RegistryModel,
    r: Result<DrainOutcome, StreamWriterError>,
) -> bool {
    if pre.rw_poisoned {
        r == Err::<DrainOutcome, StreamWriterError>(StreamWriterError::RwPoisoned) && post == pre
    } else {
        &&& drain_effect(pre, post)
        &&& r matches Ok(o) && drained_files_listed(pre, o.drained@) && o.any_poisoned == (
        exists|s: Seq<char>, k: Seq<char>|
            #[trigger] pre.has_slot(s, k) && pre.slot(s, k).poisoned)
    }
}

/// The process-wide stream-writer registry: the shared writer table behind
/// its structural guard, plus the registry's record of every staged file.
/// Constructed once at startup and passed by reference, so the ingestion
/// path, the drain path and tests all see the same instance.
pub struct StreamWriters {
    pub rw_poisoned: bool,
    pub table: WriterTable,
    pub files: Vec<FileRecord>,
}

/// The model of the staged files: each record abstracted to its view.
pub open spec fn files_model(files: Seq<FileRecord>) -> Seq<FileModel> {
    files.map_values(|r: FileRecord| r@)
}

impl View for StreamWriters {
    type V = RegistryModel;

    open spec fn view(&self) -> RegistryModel {
        RegistryModel {
            rw_poisoned: self.rw_poisoned,
            table: self.table@,
            files: files_model(self.files@),
        }
    }
}

impl StreamWriters {
    /// Structural well-formedness plus the registry invariant.
    pub open spec fn wf(self) -> bool {
        &&& self.table.wf()
        &&& self@.inv()
    }

    /// A fresh registry: empty table, no staged files, healthy guards.
    pub fn new() -> (r: Self)
        ensures
            r.wf(),
            r@.rw_poisoned == false,
            r@.table == Map::<Seq<char>, Map<Seq<char>, LocalWriter>>::empty(),
            r@.files == Seq::<FileModel>::empty(),
    {
        let r = StreamWriters { rw_poisoned: false, table: WriterTable::new(), files: Vec::new() };
        proof {
            assert(files_model(r.files@) =~= Seq::<FileModel>::empty());
        }
        r
    }

    /// Records that a holder of the table's structural guard failed while
    /// holding it.  Every later operation that needs the structural guard is
    /// refused with `RwPoisoned` instead of seeing inconsistent structure.
    pub fn poison_structural(&mut self)
        requires
            old(self).wf(),
        ensures
            final(self).wf(),
            final(self)@ == (RegistryModel { rw_poisoned: true, ..old(self)@ }),
    {
        let ghost pre = self@;
        self.rw_poisoned = true;
        proof {
            assert forall|s: Seq<char>, k: Seq<char>| #[trigger] self@.has_slot(s, k) implies self@.slot_ok(
                s,
                k,
            ) by {
                assert(pre.has_slot(s, k));
                assert(pre.slot_ok(s, k));
            }
            assert(self@ =~= (RegistryModel { rw_poisoned: true, ..pre }));
        }
    }

    /// Creates the staged file for a writer that is about to be opened:
    /// resolves the stream's staging directory and the schema's current
    /// time-bucketed path, and records the new file with the batch as its
    /// first entry.  The returned index identifies the file from here on.
    fn init_new_stream_writer_file(
        &mut self,
        stream_name: &String,
        schema_key: &String,
        record: &Batch,
    ) -> (f: usize)
        ensures
            f == old(self).files@.len(),
            final(self).rw_poisoned == old(self).rw_poisoned,
            final(self).table == old(self).table,
            final(self)@.files == old(self)@.files.push(
                FileModel {
                    stream: stream_name@,
                    schema_key: schema_key@,
                    schema_id: record.schema_id,
                    writes: seq![record.id],
                    finalized: false,
                    failed: false,
                },
            ),
    {
        let f = self.files.len();
        let mut writes: Vec<u64> = Vec::new();
        writes.push(record.id);
        let rec = FileRecord {
            stream: stream_name.clone(),
            schema_key: schema_key.clone(),
            schema_id: record.schema_id,
            writes,
            finalized: false,
            failed: false,
        };
        proof {
            assert(files_model(self.files@.push(rec)) =~= files_model(self.files@).push(rec@));
            assert(rec@.writes =~= seq![record.id]);
        }
        self.files.push(rec);
        f
    }

    /// Creates a writer and a fresh guarded slot for a (stream, schema)
    /// pair, inserting the outer stream entry if absent.  Reached only under
    /// exclusive structural access, with the lookup that found no slot still
    /// binding — the same discipline as rechecking for a slot after
    /// acquiring exclusive access — so the insert can never overwrite a
    /// writer another caller raced in.
    fn create_entry(&mut self, stream: String, schema_key: String, record: &Batch) -> (f: usize)
        requires
            old(self).wf(),
            !old(self).rw_poisoned,
        ensures
            final(self).wf(),
            f == old(self)@.files.len(),
            append_creates(
                old(self)@,
                final(self)@,
                stream@,
                schema_key@,
                *record,
                Ok(AppendAction::Created { file: f }),
            ),
    {
        let ghost pre = self@;
        let f = self.init_new_stream_writer_file(&stream, &schema_key, record);
        let w = LocalWriter { poisoned: false, state: SlotState::Open { file: f } };
        self.table.insert(stream, schema_key, w);
        proof {
            assert(self@.table == table_set_slot(pre.table, stream@, schema_key@, w));
            lemma_inv_after_create(pre, self@, stream@, schema_key@, *record, f);
        }
        f
    }

    /// Appends one columnar batch to the staged file of its (stream,
    /// schema) pair, creating the writer and the file lazily.  The common
    /// case — a healthy open writer — touches nothing but that writer's own
    /// file, so appends to unrelated pairs never disturb each other; only a
    /// first-ever write to a pair mutates the table's structure.
    pub fn append_to_local(&mut self, stream: &str, schema_key: &str, record: &Batch) -> (r:
        Result<AppendAction, StreamWriterError>)
        requires
            old(self).wf(),
        ensures
            final(self).wf(),
            append_step(old(self)@, final(self)@, stream@, schema_key@, *record, r),
    {
        if self.rw_poisoned {
            return Err(StreamWriterError::RwPoisoned);
        }
        let stream_owned: String = stream.to_owned();
        let key_owned: String = schema_key.to_owned();
        let ghost pre = self@;
        match self.table.get(&stream_owned, &key_owned) {
            Some((i, j)) => {
                let slot = self.table.streams[i].slots[j].writer;
                proof {
                    assert(pre.has_slot(stream@, schema_key@));
                    assert(slot == pre.slot(stream@, schema_key@));
                    assert(pre.slot_ok(stream@, schema_key@));
                }
                if slot.poisoned {
                    return Err(StreamWriterError::MutexPoisoned);
                }
                match slot.state {
                    SlotState::Open { file } => {
                        if self.files[file].schema_id == record.schema_id {
                            self.files[file].writes.push(record.id);
                            proof {
                                assert(files_model(self.files@) =~= pre.files.update(
                                    file as int,
                                    FileModel {
                                        writes: pre.files[file as int].writes.push(record.id),
                                        ..pre.files[file as int]
                                    },
                                ));
                                lemma_inv_after_write(pre, self@, stream@, schema_key@, file);
                            }
                            Ok(AppendAction::Wrote { file })
                        } else {
                            Err(
                                StreamWriterError::Writer {
                                    expected_schema: self.files[file].schema_id,
                                    found_schema: record.schema_id,
                                },
                            )
                        }
                    },
                    SlotState::Empty => {
                        let f = self.create_entry(stream_owned, key_owned, record);
                        Ok(AppendAction::Created { file: f })
                    },
                }
            },
            None => {
                proof {
                    assert(!pre.has_slot(stream@, schema_key@));
                }
                let f = self.create_entry(stream_owned, key_owned, record);
                Ok(AppendAction::Created { file: f })
            },
        }
    }

    /// Removes the stream's entry outright, discarding every writer it held
    /// without finalizing: stream deletion discards in-flight data, it does
    /// not drain it.  The staged files themselves are untouched.  Idempotent:
    /// deleting an absent stream changes nothing and reports no error.  A
    /// poisoned structural guard surfaces as a recoverable error rather
    /// than an unrecoverable fault.
    pub fn delete_stream(&mut self, stream: &str) -> (r: Result<(), StreamWriterError>)
        requires
            old(self).wf(),
        ensures
            final(self).wf(),
            delete_step(old(self)@, final(self)@, stream@, r),
    {
        if self.rw_poisoned {
            return Err(StreamWriterError::RwPoisoned);
        }
        let ghost pre = self@;
        let stream_owned: String = stream.to_owned();
        self.table.delete_stream(&stream_owned);
        proof {
            assert forall|s: Seq<char>, k: Seq<char>| #[trigger] self@.has_slot(s, k) implies self@.slot_ok(
                s,
                k,
            ) by {
                assert(pre.has_slot(s, k));
                assert(pre.slot(s, k) == self@.slot(s, k));
            }
        }
        Ok(())
    }

    /// Records that a holder of one (stream, schema) slot's guard failed
    /// while holding it.  Later attempts to acquire that slot are refused
    /// with `MutexPoisoned`; every other slot, and the table itself, stays
    /// usable.  Reports whether the pair had a slot to mark.
    pub fn poison_slot(&mut self, stream: &str, schema_key: &str) -> (found: bool)
        requires
            old(self).wf(),
        ensures
            final(self).wf(),
            found == old(self)@.has_slot(stream@, schema_key@),
            found ==> final(self)@ == (RegistryModel {
                table: table_set_slot(
                    old(self)@.table,
                    stream@,
                    schema_key@,
                    LocalWriter {
                        poisoned: true,
                        state: old(self)@.slot(stream@, schema_key@).state,
                    },
                ),
                ..old(self)@
            }),
            !found ==> final(self)@ == old(self)@,
    {
        let ghost pre = self@;
        let ghost pre_streams = self.table.streams@;
        let stream_owned: String = stream.to_owned();
        let key_owned: String = schema_key.to_owned();
        match self.table.get(&stream_owned, &key_owned) {
            Some((i, j)) => {
                let ghost pre_slots = pre_streams[i as int].slots@;
                proof {
                    lemma_table_view_at(pre_streams, i as int);
                    lemma_slots_view_at(pre_slots, j as int);
                }
                self.table.streams[i].slots[j].writer.poisoned = true;
                proof {
                    let entry = self.table.streams@[i as int];
                    let x = entry.slots@[j as int];
                    assert(entry.slots@ =~= pre_slots.update(j as int, x));
                    assert(self.table.streams@ =~= pre_streams.update(i as int, entry));
                    lemma_slots_view_update(pre_slots, j as int, x);
                    lemma_table_view_update(pre_streams, i as int, entry);
                    assert(slot_keys_unique(entry.slots@));
                    assert forall|a: int|
                        0 <= a < self.table.streams@.len() implies slot_keys_unique(
                        #[trigger] self.table.streams@[a].slots@,
                    ) by {
                        if a != i {
                            assert(self.table.streams@[a] == pre_streams[a]);
                        }
                    }
                    assert(self@.table == table_set_slot(
                        pre.table,
                        stream@,
                        schema_key@,
                        LocalWriter { poisoned: true, state: pre.slot(stream@, schema_key@).state },
                    ));
                    assert forall|s2: Seq<char>, k2: Seq<char>| #[trigger] self@.has_slot(
                        s2,
                        k2,
                    ) implies self@.slot_ok(s2, k2) by {
                        if s2 == stream@ && k2 == schema_key@ {
                            assert(pre.has_slot(s2, k2));
                            assert(pre.slot_ok(s2, k2));
                            assert(self@.slot(s2, k2).state == pre.slot(s2, k2).state);
                        } else {
                            if s2 == stream@ {
                                assert(pre.table[s2].contains_key(k2));
                            }
                            assert(pre.has_slot(s2, k2));
                            assert(self@.slot(s2, k2) == pre.slot(s2, k2));
                            assert(pre.slot_ok(s2, k2));
                        }
                    }
                    assert(self@ =~= (RegistryModel {
                        table: table_set_slot(
                            pre.table,
                            stream@,
                            schema_key@,
                            LocalWriter {
                                poisoned: true,
                                state: pre.slot(stream@, schema_key@).state,
                            },
                        ),
                        ..pre
                    }));
                }
                true
            },
            None => {
                false
            },
        }
    }

    /// Repairs the registry after the I/O called for by a
    /// `Created { file }` action failed, and returns the typed error the
    /// append caller must receive.  The pair's slot goes back to empty, so
    /// the next append retries creation lazily; the ledger entry that never
    /// reached disk is marked failed and emptied.  Other streams and slots
    /// are untouched: one failed creation leaves the registry serviceable.
    pub fn create_failed(&mut self, stream: &str, schema_key: &str, file: usize, os_code: i32) -> (e:
        StreamWriterError)
        requires
            old(self).wf(),
        ensures
            final(self).wf(),
            e == (StreamWriterError::Io { os_code }),
            create_failed_step(old(self)@, final(self)@, stream@, schema_key@, file),
    {
        let ghost pre = self@;
        let ghost pre_streams = self.table.streams@;
        let stream_owned: String = stream.to_owned();
        let key_owned: String = schema_key.to_owned();
        match self.table.get(&stream_owned, &key_owned) {
            Some((i, j)) => {
                let slot = self.table.streams[i].slots[j].writer;
                let matches_report = !slot.poisoned && slot.state == (SlotState::Open { file })
                    && file < self.files.len();
                if matches_report {
                    let ghost pre_slots = pre_streams[i as int].slots@;
                    proof {
                        lemma_table_view_at(pre_streams, i as int);
                        lemma_slots_view_at(pre_slots, j as int);
                        assert(pre.has_slot(stream@, schema_key@));
                        assert(pre.slot_ok(stream@, schema_key@));
                    }
                    self.table.streams[i].slots[j].writer = LocalWriter {
                        poisoned: false,
                        state: SlotState::Empty,
                    };
                    self.files[file].failed = true;
                    self.files[file].writes = Vec::new();
                    proof {
                        let entry = self.table.streams@[i as int];
                        let x = entry.slots@[j as int];
                        assert(entry.slots@ =~= pre_slots.update(j as int, x));
                        assert(self.table.streams@ =~= pre_streams.update(i as int, entry));
                        lemma_slots_view_update(pre_slots, j as int, x);
                        lemma_table_view_update(pre_streams, i as int, entry);
                        assert(slot_keys_unique(entry.slots@));
                        assert forall|a: int|
                            0 <= a < self.table.streams@.len() implies slot_keys_unique(
                            #[trigger] self.table.streams@[a].slots@,
                        ) by {
                            if a != i {
                                assert(self.table.streams@[a] == pre_streams[a]);
                            }
                        }
                        assert(files_model(self.files@) =~= pre.files.update(
                            file as int,
                            FileModel {
                                writes: Seq::<u64>::empty(),
                                failed: true,
                                ..pre.files[file as int]
                            },
                        ));
                        assert(self@.table == table_set_slot(
                            pre.table,
                            stream@,
                            schema_key@,
                            LocalWriter { poisoned: false, state: SlotState::Empty },
                        ));
                        assert forall|s2: Seq<char>, k2: Seq<char>| #[trigger] self@.has_slot(
                            s2,
                            k2,
                        ) implies self@.slot_ok(s2, k2) by {
                            if s2 == stream@ && k2 == schema_key@ {
                            } else {
                                if s2 == stream@ {
                                    assert(pre.table[s2].contains_key(k2));
                                }
                                assert(pre.has_slot(s2, k2));
                                assert(self@.slot(s2, k2) == pre.slot(s2, k2));
                                assert(pre.slot_ok(s2, k2));
                                match pre.slot(s2, k2).state {
                                    SlotState::Open { file: g } => {
                                        assert(pre.files[g as int].stream == s2);
                                        assert(pre.files[g as int].schema_key == k2);
                                        assert(pre.files[file as int].stream == stream@);
                                        assert(pre.files[file as int].schema_key == schema_key@);
                                        assert(g != file);
                                    },
                                    SlotState::Empty => {},
                                }
                            }
                        }
                    }
                }
            },
            None => {},
        }
        StreamWriterError::Io { os_code }
    }

    /// Repairs the registry after the shell failed to serialize one batch
    /// into an open writer's file, and returns the typed error the append
    /// caller must receive.  The batch the file never received comes back
    /// off the ledger; the writer stays in its slot.
    pub fn write_failed(
        &mut self,
        stream: &str,
        schema_key: &str,
        file: usize,
        batch_id: u64,
        os_code: i32,
    ) -> (e: StreamWriterError)
        requires
            old(self).wf(),
        ensures
            final(self).wf(),
            e == (StreamWriterError::Io { os_code }),
            write_failed_step(old(self)@, final(self)@, stream@, schema_key@, file, batch_id),
    {
        let ghost pre = self@;
        let stream_owned: String = stream.to_owned();
        let key_owned: String = schema_key.to_owned();
        match self.table.get(&stream_owned, &key_owned) {
            Some((i, j)) => {
                let slot = self.table.streams[i].slots[j].writer;
                if !slot.poisoned && slot.state == (SlotState::Open { file })
                    && file < self.files.len() {
                    let n = self.files[file].writes.len();
                    if n > 0 && self.files[file].writes[n - 1] == batch_id {
                        self.files[file].writes.pop();
                        proof {
                            assert(self.files@[file as int].writes@ =~= pre.files[
                                file as int
                            ].writes.drop_last());
                            assert(files_model(self.files@) =~= pre.files.update(
                                file as int,
                                FileModel {
                                    writes: pre.files[file as int].writes.drop_last(),
                                    ..pre.files[file as int]
                                },
                            ));
                            lemma_inv_after_write(pre, self@, stream@, schema_key@, file);
                        }
                    }
                }
            },
            None => {},
        }
        StreamWriterError::Io { os_code }
    }

    /// Repairs the ledger after the shell failed to write a file's footer
    /// during the drain, and returns the typed error to collect for that
    /// slot: the file is recorded as still lacking a valid footer.
    pub fn finalize_failed(&mut self, file: usize, os_code: i32) -> (e: StreamWriterError)
        requires
            old(self).wf(),
        ensures
            final(self).wf(),
            e == (StreamWriterError::Io { os_code }),
            finalize_failed_step(old(self)@, final(self)@, file),
    {
        let ghost pre = self@;
        if file < self.files.len() {
            self.files[file].finalized = false;
            proof {
                assert(files_model(self.files@) =~= pre.files.update(
                    file as int,
                    FileModel { finalized: false, ..pre.files[file as int] },
                ));
                assert forall|s2: Seq<char>, k2: Seq<char>| #[trigger] self@.has_slot(
                    s2,
                    k2,
                ) implies self@.slot_ok(s2, k2) by {
                    assert(pre.has_slot(s2, k2));
                    assert(self@.slot(s2, k2) == pre.slot(s2, k2));
                    assert(pre.slot_ok(s2, k2));
                }
            }
        }
        StreamWriterError::Io { os_code }
    }

    /// Drains every writer for the periodic or shutdown flush: sweeps all
    /// slots, finalizes each healthy open writer's file — writing the footer
    /// that makes the file independently readable — and clears the slot back
    /// to empty-but-present, so the next append to the pair creates a fresh
    /// writer and file.  No table entry is removed.  A poisoned slot is
    /// skipped and reported, the remaining slots are still drained: one
    /// failed writer does not abort draining the rest.  The report lists
    /// exactly the files that gained their footer, so the I/O shell can
    /// finish those encoders — and only those — and report back any footer
    /// that failed to write through `finalize_failed`.
    pub fn unset_all(&mut self) -> (r: Result<DrainOutcome, StreamWriterError>)
        requires
            old(self).wf(),
        ensures
            final(self).wf(),
            unset_step(old(self)@, final(self)@, r),
    {
        if self.rw_poisoned {
            return Err(StreamWriterError::RwPoisoned);
        }
        let ghost pre = self@;
        let ghost pre_streams = self.table.streams@;
        let mut any_poisoned = false;
        let mut drained: Vec<usize> = Vec::new();
        let mut i: usize = 0;
        while i < self.table.streams.len()
            invariant
                self.rw_poisoned == false,
                pre.rw_poisoned == false,
                pre.table == table_view(pre_streams),
                pre.files == files_model(old(self).files@),
                pre.inv(),
                stream_names_unique(pre_streams),
                forall|x: int|
                    0 <= x < pre_streams.len() ==> slot_keys_unique(
                        #[trigger] pre_streams[x].slots@,
                    ),
                0 <= i <= pre_streams.len(),
                drain_shape(pre_streams, self.table.streams@, i as int, 0),
                drain_files(pre_streams, pre.files, files_model(self.files@), i as int, 0),
                any_poisoned == poisoned_seen(pre_streams, i as int, 0),
                drained_partial(pre_streams, pre.files, drained@, i as int, 0),
            decreases pre_streams.len() - i,
        {
            let ghost i0 = i as int;
            let mut j: usize = 0;
            while j < self.table.streams[i].slots.len()
                invariant
                    self.rw_poisoned == false,
                    pre.rw_poisoned == false,
                    pre.table == table_view(pre_streams),
                    pre.inv(),
                    stream_names_unique(pre_streams),
                    forall|x: int|
                        0 <= x < pre_streams.len() ==> slot_keys_unique(
                            #[trigger] pre_streams[x].slots@,
                        ),
                    i == i0,
                    0 <= i0 < pre_streams.len(),
                    0 <= j <= pre_streams[i0].slots@.len(),
                    drain_shape(pre_streams, self.table.streams@, i0, j as int),
                    drain_files(pre_streams, pre.files, files_model(self.files@), i0, j as int),
                    any_poisoned == poisoned_seen(pre_streams, i0, j as int),
                    drained_partial(pre_streams, pre.files, drained@, i0, j as int),
                decreases pre_streams[i0].slots@.len() - j,
            {
                let ghost j0 = j as int;
                let ghost cur0 = self.table.streams@;
                let ghost cf0 = files_model(self.files@);
                let slot = self.table.streams[i].slots[j].writer;
                proof {
                    assert(slot.poisoned == pre_streams[i0].slots@[j0].writer.poisoned);
                    assert(!processed_before(i0, j0, i0, j0));
                    assert(slot.state == pre_streams[i0].slots@[j0].writer.state);
                }
                if slot.poisoned {
                    any_poisoned = true;
                    proof {
                        lemma_drain_step_unchanged(
                            pre_streams,
                            pre.files,
                            self.table.streams@,
                            files_model(self.files@),
                            i0,
                            j0,
                        );
                    }
                } else {
                    match slot.state {
                        SlotState::Open { file } => {
                            proof {
                                lemma_inv_at(pre_streams, pre, i0, j0);
                                assert(file < pre.files.len());
                            }
                            self.files[file].finalized = true;
                            self.table.streams[i].slots[j].writer.state = SlotState::Empty;
                            proof {
                                assert forall|g: int|
                                    0 <= g < cf0.len() && g != file implies #[trigger] files_model(
                                    self.files@,
                                )[g] == cf0[g] by {}
                                assert(files_model(self.files@)[file as int] =~= (FileModel {
                                    finalized: true,
                                    ..cf0[file as int]
                                }));
                                lemma_drain_step_open(
                                    pre_streams,
                                    pre.files,
                                    pre,
                                    cur0,
                                    self.table.streams@,
                                    cf0,
                                    files_model(self.files@),
                                    i0,
                                    j0,
                                    file,
                                );
                            }
                            let ghost d0 = drained@;
                            drained.push(file);
                            proof {
                                assert forall|t: int| 0 <= t < d0.len() implies d0[t] != file by {
                                    if d0[t] == file {
                                        assert(finalized_by(pre_streams, file as int, i0, j0));
                                    }
                                }
                                assert forall|t1: int, t2: int|
                                    0 <= t1 < t2 < drained@.len() implies drained@[t1]
                                    != drained@[t2] by {
                                    if t2 == drained@.len() - 1 {
                                        assert(drained@[t1] == d0[t1]);
                                        assert(drained@[t2] == file);
                                    } else {
                                        assert(drained@[t1] == d0[t1]);
                                        assert(drained@[t2] == d0[t2]);
                                    }
                                }
                                assert forall|t: int|
                                    0 <= t < drained@.len() implies (#[trigger] drained@[t])
                                    < pre.files.len() && finalized_by(
                                    pre_streams,
                                    drained@[t] as int,
                                    i0,
                                    j0 + 1,
                                ) by {
                                    if t < d0.len() {
                                        assert(drained@[t] == d0[t]);
                                        assert(finalized_by(pre_streams, d0[t] as int, i0, j0));
                                        assert(d0[t] != file);
                                    } else {
                                        assert(drained@[t] == file);
                                    }
                                }
                                assert forall|f2: int|
                                    0 <= f2 < pre.files.len() && #[trigger] finalized_by(
                                        pre_streams,
                                        f2,
                                        i0,
                                        j0 + 1,
                                    ) implies drained@.contains(f2 as usize) by {
                                    if f2 == file {
                                        assert(drained@[drained@.len() - 1] == file);
                                    } else {
                                        assert(finalized_by(pre_streams, f2, i0, j0));
                                        assert(d0.contains(f2 as usize));
                                        let t = choose|t: int|
                                            0 <= t < d0.len() && d0[t] == f2 as usize;
                                        assert(drained@[t] == f2 as usize);
                                    }
                                }
                            }
                        },
                        SlotState::Empty => {
                            proof {
                                lemma_drain_step_unchanged(
                                    pre_streams,
                                    pre.files,
                                    self.table.streams@,
                                    files_model(self.files@),
                                    i0,
                                    j0,
                                );
                            }
                        },
                    }
                }
                j += 1;
            }
            proof {
                lemma_drain_row_boundary(
                    pre_streams,
                    pre.files,
                    self.table.streams@,
                    files_model(self.files@),
                    i0,
                );
            }
            i += 1;
        }
        proof {
            assert(old(self).files.len() == old(self).files@.len());
            assert(pre.files.len() <= usize::MAX);
            lemma_unset_post(pre, pre_streams, self.table.streams@, files_model(self.files@));
            assert(drained_files_listed(pre, drained@)) by {
                assert forall|t: int|
                    0 <= t < drained@.len() implies (#[trigger] drained@[t]) < pre.files.len()
                    && file_open_in(pre, drained@[t] as int) by {
                    assert(finalized_by(
                        pre_streams,
                        drained@[t] as int,
                        pre_streams.len() as int,
                        0,
                    ));
                }
                assert forall|f: int|
                    0 <= f < pre.files.len() && file_open_in(pre, f) implies drained@.contains(
                    f as usize,
                ) by {
                    assert(finalized_by(pre_streams, f, pre_streams.len() as int, 0));
                }
            }
        }
        Ok(DrainOutcome { drained, any_poisoned })
    }
}

// ---------------------------------------------------------------------------
// The drain (flush-all) loop and its sequence-level bookkeeping.
// ---------------------------------------------------------------------------

/// Slot coordinates strictly before position (i, j) in the drain's sweep.
pub open spec fn processed_before(a: int, b: int, i: int, j: int) -> bool {
    a < i || (a == i && b < j)
}

/// Seq-level counterpart of `slot_ok` at one coordinate.
pub open spec fn slot_ok_at(streams: Seq<StreamEntry>, files: Seq<FileModel>, a: int, b: int) -> bool {
    match streams[a].slots@[b].writer.state {
        SlotState::Empty => true,
        SlotState::Open { file } => {
            &&& file < files.len()
            &&& !files[file as int].finalized
            &&& files[file as int].stream == streams[a].name@
            &&& files[file as int].schema_key == streams[a].slots@[b].key@
        },
    }
}

/// How far the drain has reshaped the table: every slot swept so far and not
/// poisoned is cleared; names, keys, lengths and poison flags never move.
pub open spec fn drain_shape(pre: Seq<StreamEntry>, cur: Seq<StreamEntry>, i: int, j: int) -> bool {
    &&& cur.len() == pre.len()
    &&& forall|a: int|
        0 <= a < pre.len() ==> (#[trigger] cur[a]).name@ == pre[a].name@ && cur[a].slots@.len()
            == pre[a].slots@.len()
    &&& forall|a: int, b: int|
        0 <= a < pre.len() && 0 <= b < pre[a].slots@.len() ==> {
            let c = (#[trigger] cur[a].slots@[b]);
            let p = pre[a].slots@[b];
            &&& c.key@ == p.key@
            &&& c.writer.poisoned == p.writer.poisoned
            &&& c.writer.state == (if processed_before(a, b, i, j) && !p.writer.poisoned {
                SlotState::Empty
            } else {
                p.writer.state
            })
        }
}

/// File `f` was finalized by a slot the sweep has already passed.
pub open spec fn finalized_by(pre: Seq<StreamEntry>, f: int, i: int, j: int) -> bool {
    exists|a: int, b: int|
        {
            &&& 0 <= a < pre.len()
            &&& 0 <= b < pre[a].slots@.len()
            &&& processed_before(a, b, i, j)
            &&& !(#[trigger] pre[a].slots@[b]).writer.poisoned
            &&& pre[a].slots@[b].writer.state matches SlotState::Open { file } && file == f
        }
}

/// How far the drain has reshaped the files: contents never move, and a file
/// is finalized exactly when it was already, or a swept healthy writer fed it.
pub open spec fn drain_files(
    pre_streams: Seq<StreamEntry>,
    pre_files: Seq<FileModel>,
    cur_files: Seq<FileModel>,
    i: int,
    j: int,
) -> bool {
    &&& cur_files.len() == pre_files.len()
    &&& forall|f: int|
        0 <= f < pre_files.len() ==> {
            let c = (#[trigger] cur_files[f]);
            &&& c.stream == pre_files[f].stream
            &&& c.schema_key == pre_files[f].schema_key
            &&& c.schema_id == pre_files[f].schema_id
            &&& c.writes == pre_files[f].writes
            &&& c.failed == pre_files[f].failed
            &&& c.finalized == (pre_files[f].finalized || finalized_by(pre_streams, f, i, j))
        }
}

/// A slot guard the sweep already passed was found poisoned.
pub open spec fn poisoned_seen(pre: Seq<StreamEntry>, i: int, j: int) -> bool {
    exists|a: int, b: int|
        0 <= a < pre.len() && 0 <= b < pre[a].slots@.len() && processed_before(a, b, i, j) && (
        #[trigger] pre[a].slots@[b]).writer.poisoned
}

/// Partway through the sweep, `drained` lists without duplicates exactly
/// the files the slots passed so far have finalized.
pub open spec fn drained_partial(
    pre_streams: Seq<StreamEntry>,
    pre_files: Seq<FileModel>,
    drained: Seq<usize>,
    i: int,
    j: int,
) -> bool {
    &&& drained.no_duplicates()
    &&& forall|t: int|
        0 <= t < drained.len() ==> (#[trigger] drained[t]) < pre_files.len() && finalized_by(
            pre_streams,
            drained[t] as int,
            i,
            j,
        )
    &&& forall|f: int|
        0 <= f < pre_files.len() && finalized_by(pre_streams, f, i, j) ==> drained.contains(
            f as usize,
        )
}

/// The model invariant, read off at one coordinate of the representation.
proof fn lemma_inv_at(streams: Seq<StreamEntry>, m: RegistryModel, a: int, b: int)
    requires
        stream_names_unique(streams),
        forall|x: int| 0 <= x < streams.len() ==> slot_keys_unique(#[trigger] streams[x].slots@),
        m.table == table_view(streams),
        m.inv(),
        0 <= a < streams.len(),
        0 <= b < streams[a].slots@.len(),
    ensures
        m.has_slot(streams[a].name@, streams[a].slots@[b].key@),
        m.slot(streams[a].name@, streams[a].slots@[b].key@) == streams[a].slots@[b].writer,
        slot_ok_at(streams, m.files, a, b),
{
    lemma_table_view_at(streams, a);
    lemma_slots_view_at(streams[a].slots@, b);
    assert(m.has_slot(streams[a].name@, streams[a].slots@[b].key@));
    assert(m.slot_ok(streams[a].name@, streams[a].slots@[b].key@));
}

/// At most one slot feeds any one file: the file records its (stream,
/// schema) pair, and each pair owns one slot.
proof fn lemma_open_unique(
    streams: Seq<StreamEntry>,
    m: RegistryModel,
    a: int,
    b: int,
    a2: int,
    b2: int,
    f: int,
)
    requires
        stream_names_unique(streams),
        forall|x: int| 0 <= x < streams.len() ==> slot_keys_unique(#[trigger] streams[x].slots@),
        m.table == table_view(streams),
        m.inv(),
        0 <= a < streams.len(),
        0 <= b < streams[a].slots@.len(),
        0 <= a2 < streams.len(),
        0 <= b2 < streams[a2].slots@.len(),
        streams[a].slots@[b].writer.state matches SlotState::Open { file } && file == f,
        streams[a2].slots@[b2].writer.state matches SlotState::Open { file } && file == f,
    ensures
        a == a2,
        b == b2,
{
    lemma_inv_at(streams, m, a, b);
    lemma_inv_at(streams, m, a2, b2);
    assert(m.files[f].stream == streams[a].name@);
    assert(m.files[f].stream == streams[a2].name@);
    if a != a2 {
        if a < a2 {
            assert(streams[a].name@ != streams[a2].name@);
        } else {
            assert(streams[a2].name@ != streams[a].name@);
        }
    }
    assert(a == a2);
    if b != b2 {
        assert(m.files[f].schema_key == streams[a].slots@[b].key@);
        assert(m.files[f].schema_key == streams[a].slots@[b2].key@);
        if b < b2 {
            assert(streams[a].slots@[b].key@ != streams[a].slots@[b2].key@);
        } else {
            assert(streams[a].slots@[b2].key@ != streams[a].slots@[b].key@);
        }
    }
}

/// One sweep step over a slot that is left alone (poisoned, or already
/// empty): the drain bookkeeping advances without any state change.
proof fn lemma_drain_step_unchanged(
    pre_streams: Seq<StreamEntry>,
    pre_files: Seq<FileModel>,
    cur: Seq<StreamEntry>,
    cur_files: Seq<FileModel>,
    i: int,
    j: int,
)
    requires
        0 <= i < pre_streams.len(),
        0 <= j < pre_streams[i].slots@.len(),
        drain_shape(pre_streams, cur, i, j),
        drain_files(pre_streams, pre_files, cur_files, i, j),
        pre_streams[i].slots@[j].writer.poisoned || pre_streams[i].slots@[j].writer.state
            == SlotState::Empty,
    ensures
        drain_shape(pre_streams, cur, i, j + 1),
        drain_files(pre_streams, pre_files, cur_files, i, j + 1),
        pre_streams[i].slots@[j].writer.poisoned ==> poisoned_seen(pre_streams, i, j + 1),
        !pre_streams[i].slots@[j].writer.poisoned ==> poisoned_seen(pre_streams, i, j + 1)
            == poisoned_seen(pre_streams, i, j),
        forall|f: int|
            0 <= f < pre_files.len() ==> #[trigger] finalized_by(pre_streams, f, i, j + 1)
                == finalized_by(pre_streams, f, i, j),
{
    assert forall|a: int, b: int|
        0 <= a < pre_streams.len() && 0 <= b < pre_streams[a].slots@.len() implies {
        let c = (#[trigger] cur[a].slots@[b]);
        let p = pre_streams[a].slots@[b];
        c.writer.state == (if processed_before(a, b, i, j + 1) && !p.writer.poisoned {
            SlotState::Empty
        } else {
            p.writer.state
        })
    } by {
        assert(cur[a].slots@[b].writer.state == (if processed_before(a, b, i, j)
            && !pre_streams[a].slots@[b].writer.poisoned {
            SlotState::Empty
        } else {
            pre_streams[a].slots@[b].writer.state
        }));
    }
    assert forall|f: int| 0 <= f < pre_files.len() implies #[trigger] finalized_by(
        pre_streams,
        f,
        i,
        j + 1,
    ) == finalized_by(pre_streams, f, i, j) by {
        if finalized_by(pre_streams, f, i, j + 1) {
            let (a, b) = choose|a: int, b: int|
                {
                    &&& 0 <= a < pre_streams.len()
                    &&& 0 <= b < pre_streams[a].slots@.len()
                    &&& processed_before(a, b, i, j + 1)
                    &&& !(#[trigger] pre_streams[a].slots@[b]).writer.poisoned
                    &&& pre_streams[a].slots@[b].writer.state matches SlotState::Open { file }
                        && file == f
                };
            assert(!(a == i && b == j));
            assert(processed_before(a, b, i, j));
            assert(finalized_by(pre_streams, f, i, j));
        }
        if finalized_by(pre_streams, f, i, j) {
            assert(finalized_by(pre_streams, f, i, j + 1));
        }
    }
    assert forall|f: int| 0 <= f < pre_files.len() implies {
        let c = (#[trigger] cur_files[f]);
        c.finalized == (pre_files[f].finalized || finalized_by(pre_streams, f, i, j + 1))
    } by {
        assert(cur_files[f].finalized == (pre_files[f].finalized || finalized_by(
            pre_streams,
            f,
            i,
            j,
        )));
    }
    if pre_streams[i].slots@[j].writer.poisoned {
        assert(processed_before(i, j, i, j + 1));
        assert(poisoned_seen(pre_streams, i, j + 1));
    } else {
        if poisoned_seen(pre_streams, i, j + 1) {
            let (a, b) = choose|a: int, b: int|
                0 <= a < pre_streams.len() && 0 <= b < pre_streams[a].slots@.len()
                    && processed_before(a, b, i, j + 1) && (
                #[trigger] pre_streams[a].slots@[b]).writer.poisoned;
            assert(!(a == i && b == j));
            assert(poisoned_seen(pre_streams, i, j));
        }
        if poisoned_seen(pre_streams, i, j) {
            assert(poisoned_seen(pre_streams, i, j + 1));
        }
    }
}

/// One sweep step that drains a healthy open writer: its file gains the
/// footer, the slot is cleared, and the bookkeeping advances.
proof fn lemma_drain_step_open(
    pre_streams: Seq<StreamEntry>,
    pre_files: Seq<FileModel>,
    m: RegistryModel,
    cur0: Seq<StreamEntry>,
    cur1: Seq<StreamEntry>,
    cf0: Seq<FileModel>,
    cf1: Seq<FileModel>,
    i: int,
    j: int,
    f: usize,
)
    requires
        stream_names_unique(pre_streams),
        forall|x: int|
            0 <= x < pre_streams.len() ==> slot_keys_unique(#[trigger] pre_streams[x].slots@),
        m.table == table_view(pre_streams),
        m.files == pre_files,
        m.inv(),
        0 <= i < pre_streams.len(),
        0 <= j < pre_streams[i].slots@.len(),
        drain_shape(pre_streams, cur0, i, j),
        drain_files(pre_streams, pre_files, cf0, i, j),
        !pre_streams[i].slots@[j].writer.poisoned,
        pre_streams[i].slots@[j].writer.state == (SlotState::Open { file: f }),
        f < pre_files.len(),
        // cur1: cur0 with only slot (i, j) cleared
        cur1.len() == cur0.len(),
        forall|a: int| 0 <= a < cur0.len() && a != i ==> #[trigger] cur1[a] == cur0[a],
        cur1[i].name@ == cur0[i].name@,
        cur1[i].slots@.len() == cur0[i].slots@.len(),
        forall|b: int|
            0 <= b < cur0[i].slots@.len() && b != j ==> #[trigger] cur1[i].slots@[b]
                == cur0[i].slots@[b],
        cur1[i].slots@[j].key@ == cur0[i].slots@[j].key@,
        cur1[i].slots@[j].writer.poisoned == cur0[i].slots@[j].writer.poisoned,
        cur1[i].slots@[j].writer.state == SlotState::Empty,
        // cf1: cf0 with only file f finalized
        cf1.len() == cf0.len(),
        forall|g: int| 0 <= g < cf0.len() && g != f ==> #[trigger] cf1[g] == cf0[g],
        cf1[f as int] == (FileModel { finalized: true, ..cf0[f as int] }),
    ensures
        drain_shape(pre_streams, cur1, i, j + 1),
        drain_files(pre_streams, pre_files, cf1, i, j + 1),
        poisoned_seen(pre_streams, i, j + 1) == poisoned_seen(pre_streams, i, j),
        finalized_by(pre_streams, f as int, i, j + 1),
        !finalized_by(pre_streams, f as int, i, j),
        forall|g: int|
            0 <= g < pre_files.len() && g != f ==> #[trigger] finalized_by(
                pre_streams,
                g,
                i,
                j + 1,
            ) == finalized_by(pre_streams, g, i, j),
{
    assert(processed_before(i, j, i, j + 1));
    assert(finalized_by(pre_streams, f as int, i, j + 1));
    if finalized_by(pre_streams, f as int, i, j) {
        let (a, b) = choose|a: int, b: int|
            {
                &&& 0 <= a < pre_streams.len()
                &&& 0 <= b < pre_streams[a].slots@.len()
                &&& processed_before(a, b, i, j)
                &&& !(#[trigger] pre_streams[a].slots@[b]).writer.poisoned
                &&& pre_streams[a].slots@[b].writer.state matches SlotState::Open { file } && file
                    == f as int
            };
        lemma_open_unique(pre_streams, m, a, b, i, j, f as int);
        assert(false);
    }
    assert forall|g: int|
        0 <= g < pre_files.len() && g != f implies #[trigger] finalized_by(pre_streams, g, i, j + 1)
        == finalized_by(pre_streams, g, i, j) by {
        if finalized_by(pre_streams, g, i, j + 1) && !finalized_by(pre_streams, g, i, j) {
            let (a, b) = choose|a: int, b: int|
                {
                    &&& 0 <= a < pre_streams.len()
                    &&& 0 <= b < pre_streams[a].slots@.len()
                    &&& processed_before(a, b, i, j + 1)
                    &&& !(#[trigger] pre_streams[a].slots@[b]).writer.poisoned
                    &&& pre_streams[a].slots@[b].writer.state matches SlotState::Open { file }
                        && file == g
                };
            assert(a == i && b == j);
            assert(false);
        }
        if finalized_by(pre_streams, g, i, j) {
            assert(finalized_by(pre_streams, g, i, j + 1));
        }
    }
    assert forall|a: int, b: int|
        0 <= a < pre_streams.len() && 0 <= b < pre_streams[a].slots@.len() implies {
        let c = (#[trigger] cur1[a].slots@[b]);
        let p = pre_streams[a].slots@[b];
        &&& c.key@ == p.key@
        &&& c.writer.poisoned == p.writer.poisoned
        &&& c.writer.state == (if processed_before(a, b, i, j + 1) && !p.writer.poisoned {
            SlotState::Empty
        } else {
            p.writer.state
        })
    } by {
        assert(cur0[a].slots@[b].key@ == pre_streams[a].slots@[b].key@);
        assert(cur0[a].slots@[b].writer.poisoned == pre_streams[a].slots@[b].writer.poisoned);
        assert(cur0[a].slots@[b].writer.state == (if processed_before(a, b, i, j)
            && !pre_streams[a].slots@[b].writer.poisoned {
            SlotState::Empty
        } else {
            pre_streams[a].slots@[b].writer.state
        }));
        if a == i && b == j {
        } else {
            assert(cur1[a].slots@[b] == cur0[a].slots@[b]);
        }
    }
    assert forall|g: int| 0 <= g < pre_files.len() implies {
        let c = (#[trigger] cf1[g]);
        &&& c.stream == pre_files[g].stream
        &&& c.schema_key == pre_files[g].schema_key
        &&& c.schema_id == pre_files[g].schema_id
        &&& c.writes == pre_files[g].writes
        &&& c.failed == pre_files[g].failed
        &&& c.finalized == (pre_files[g].finalized || finalized_by(pre_streams, g, i, j + 1))
    } by {
        assert(cf0[g].finalized == (pre_files[g].finalized || finalized_by(pre_streams, g, i, j)));
        if g == f {
            assert(processed_before(i, j, i, j + 1));
            assert(finalized_by(pre_streams, f as int, i, j + 1));
            lemma_inv_at(pre_streams, m, i, j);
            assert(!pre_files[f as int].finalized);
        } else {
            assert(cf1[g] == cf0[g]);
            if finalized_by(pre_streams, g, i, j + 1) && !finalized_by(pre_streams, g, i, j) {
                let (a, b) = choose|a: int, b: int|
                    {
                        &&& 0 <= a < pre_streams.len()
                        &&& 0 <= b < pre_streams[a].slots@.len()
                        &&& processed_before(a, b, i, j + 1)
                        &&& !(#[trigger] pre_streams[a].slots@[b]).writer.poisoned
                        &&& pre_streams[a].slots@[b].writer.state matches SlotState::Open { file }
                            && file == g
                    };
                assert(a == i && b == j);
                assert(false);
            }
            if finalized_by(pre_streams, g, i, j) {
                assert(finalized_by(pre_streams, g, i, j + 1));
            }
        }
    }
    if poisoned_seen(pre_streams, i, j + 1) {
        let (a, b) = choose|a: int, b: int|
            0 <= a < pre_streams.len() && 0 <= b < pre_streams[a].slots@.len()
                && processed_before(a, b, i, j + 1) && (
            #[trigger] pre_streams[a].slots@[b]).writer.poisoned;
        assert(!(a == i && b == j));
        assert(poisoned_seen(pre_streams, i, j));
    }
    if poisoned_seen(pre_streams, i, j) {
        assert(poisoned_seen(pre_streams, i, j + 1));
    }
}

/// Crossing from the end of one stream's row to the start of the next
/// changes nothing about which slots count as swept.
proof fn lemma_drain_row_boundary(
    pre_streams: Seq<StreamEntry>,
    pre_files: Seq<FileModel>,
    cur: Seq<StreamEntry>,
    cur_files: Seq<FileModel>,
    i: int,
)
    requires
        0 <= i < pre_streams.len(),
        drain_shape(pre_streams, cur, i, pre_streams[i].slots@.len() as int),
        drain_files(pre_streams, pre_files, cur_files, i, pre_streams[i].slots@.len() as int),
    ensures
        drain_shape(pre_streams, cur, i + 1, 0),
        drain_files(pre_streams, pre_files, cur_files, i + 1, 0),
        poisoned_seen(pre_streams, i + 1, 0) == poisoned_seen(
            pre_streams,
            i,
            pre_streams[i].slots@.len() as int,
        ),
        forall|f: int|
            0 <= f < pre_files.len() ==> #[trigger] finalized_by(pre_streams, f, i + 1, 0)
                == finalized_by(pre_streams, f, i, pre_streams[i].slots@.len() as int),
{
    let row = pre_streams[i].slots@.len() as int;
    assert forall|a: int, b: int|
        0 <= a < pre_streams.len() && 0 <= b < pre_streams[a].slots@.len() implies (
    processed_before(a, b, i, row) == processed_before(a, b, i + 1, 0)) by {}
    assert forall|a: int, b: int|
        0 <= a < pre_streams.len() && 0 <= b < pre_streams[a].slots@.len() implies {
        let c = (#[trigger] cur[a].slots@[b]);
        let p = pre_streams[a].slots@[b];
        c.writer.state == (if processed_before(a, b, i + 1, 0) && !p.writer.poisoned {
            SlotState::Empty
        } else {
            p.writer.state
        })
    } by {
        assert(cur[a].slots@[b].writer.state == (if processed_before(a, b, i, row)
            && !pre_streams[a].slots@[b].writer.poisoned {
            SlotState::Empty
        } else {
            pre_streams[a].slots@[b].writer.state
        }));
    }
    assert forall|f: int| 0 <= f < pre_files.len() implies #[trigger] finalized_by(
        pre_streams,
        f,
        i + 1,
        0,
    ) == finalized_by(pre_streams, f, i, row) by {}
    assert forall|f: int| 0 <= f < pre_files.len() implies {
        let c = (#[trigger] cur_files[f]);
        c.finalized == (pre_files[f].finalized || finalized_by(pre_streams, f, i + 1, 0))
    } by {
        assert(cur_files[f].finalized == (pre_files[f].finalized || finalized_by(
            pre_streams,
            f,
            i,
            row,
        )));
    }
}

/// After the sweep has passed every slot, the representation-level
/// bookkeeping amounts to the model-level drain relation.
proof fn lemma_unset_post(
    pre: RegistryModel,
    pre_streams: Seq<StreamEntry>,
    cur: Seq<StreamEntry>,
    cur_files: Seq<FileModel>,
)
    requires
        pre.rw_poisoned == false,
        pre.table == table_view(pre_streams),
        pre.inv(),
        pre.files.len() <= usize::MAX,
        stream_names_unique(pre_streams),
        forall|x: int|
            0 <= x < pre_streams.len() ==> slot_keys_unique(#[trigger] pre_streams[x].slots@),
        drain_shape(pre_streams, cur, pre_streams.len() as int, 0),
        drain_files(pre_streams, pre.files, cur_files, pre_streams.len() as int, 0),
    ensures
        stream_names_unique(cur),
        forall|x: int| 0 <= x < cur.len() ==> slot_keys_unique(#[trigger] cur[x].slots@),
        ({
            let post = RegistryModel {
                rw_poisoned: false,
                table: table_view(cur),
                files: cur_files,
            };
            &&& post.inv()
            &&& drain_effect(pre, post)
        }),
        poisoned_seen(pre_streams, pre_streams.len() as int, 0) == (exists|
            s: Seq<char>,
            k: Seq<char>,
        |
            #[trigger] pre.has_slot(s, k) && pre.slot(s, k).poisoned),
        forall|f: int|
            0 <= f < pre.files.len() ==> #[trigger] finalized_by(
                pre_streams,
                f,
                pre_streams.len() as int,
                0,
            ) == file_open_in(pre, f),
{
    let n = pre_streams.len() as int;
    let post = RegistryModel { rw_poisoned: false, table: table_view(cur), files: cur_files };
    // cur inherits both uniqueness levels pointwise.
    assert forall|a: int, b: int| 0 <= a < b < cur.len() implies cur[a].name@ != cur[b].name@ by {
        assert(cur[a].name@ == pre_streams[a].name@);
        assert(cur[b].name@ == pre_streams[b].name@);
    }
    assert forall|x: int| 0 <= x < cur.len() implies slot_keys_unique(#[trigger] cur[x].slots@) by {
        assert forall|a: int, b: int| 0 <= a < b < cur[x].slots@.len() implies cur[x].slots@[a].key@
            != cur[x].slots@[b].key@ by {
            assert(cur[x].slots@[a].key@ == pre_streams[x].slots@[a].key@);
            assert(cur[x].slots@[b].key@ == pre_streams[x].slots@[b].key@);
        }
    }
    // Outer domain is unchanged.
    assert forall|s: Seq<char>|
        post.table.contains_key(s) == pre.table.contains_key(s) by {
        lemma_table_view_contains(cur, s);
        lemma_table_view_contains(pre_streams, s);
        if exists|a: int| 0 <= a < cur.len() && #[trigger] cur[a].name@ == s {
            let a = choose|a: int| 0 <= a < cur.len() && #[trigger] cur[a].name@ == s;
            assert(pre_streams[a].name@ == s);
        }
        if exists|a: int| 0 <= a < pre_streams.len() && #[trigger] pre_streams[a].name@ == s {
            let a = choose|a: int|
                0 <= a < pre_streams.len() && #[trigger] pre_streams[a].name@ == s;
            assert(cur[a].name@ == s);
        }
    }
    assert(post.table.dom() =~= pre.table.dom());
    // Inner domains are unchanged, and every slot is drained.
    assert forall|s: Seq<char>| pre.table.contains_key(s) implies (#[trigger] post.table[s]).dom()
        == pre.table[s].dom() by {
        lemma_table_view_contains(pre_streams, s);
        let a = choose|a: int| 0 <= a < pre_streams.len() && #[trigger] pre_streams[a].name@ == s;
        lemma_table_view_at(pre_streams, a);
        lemma_table_view_at(cur, a);
        assert(cur[a].name@ == s);
        assert forall|k: Seq<char>|
            post.table[s].contains_key(k) == pre.table[s].contains_key(k) by {
            lemma_slots_view_contains(cur[a].slots@, k);
            lemma_slots_view_contains(pre_streams[a].slots@, k);
            if exists|b: int| 0 <= b < cur[a].slots@.len() && #[trigger] cur[a].slots@[b].key@
                == k {
                let b = choose|b: int|
                    0 <= b < cur[a].slots@.len() && #[trigger] cur[a].slots@[b].key@ == k;
                assert(pre_streams[a].slots@[b].key@ == k);
            }
            if exists|b: int|
                0 <= b < pre_streams[a].slots@.len() && #[trigger] pre_streams[a].slots@[b].key@
                    == k {
                let b = choose|b: int|
                    0 <= b < pre_streams[a].slots@.len()
                        && #[trigger] pre_streams[a].slots@[b].key@ == k;
                assert(cur[a].slots@[b].key@ == k);
            }
        }
        assert(post.table[s].dom() =~= pre.table[s].dom());
    }
    assert forall|s: Seq<char>, k: Seq<char>| #[trigger] pre.has_slot(s, k) implies post.table[s][k]
        == drained_slot(pre.slot(s, k)) by {
        lemma_table_view_contains(pre_streams, s);
        let a = choose|a: int| 0 <= a < pre_streams.len() && #[trigger] pre_streams[a].name@ == s;
        lemma_table_view_at(pre_streams, a);
        lemma_slots_view_contains(pre_streams[a].slots@, k);
        let b = choose|b: int|
            0 <= b < pre_streams[a].slots@.len() && #[trigger] pre_streams[a].slots@[b].key@ == k;
        lemma_slots_view_at(pre_streams[a].slots@, b);
        lemma_table_view_at(cur, a);
        assert(cur[a].name@ == s);
        assert(cur[a].slots@[b].key@ == k);
        lemma_slots_view_at(cur[a].slots@, b);
        assert(processed_before(a, b, n, 0));
    }
    // Which files gained a footer: exactly those a healthy open writer fed.
    assert forall|f: int| 0 <= f < pre.files.len() implies #[trigger] finalized_by(
        pre_streams,
        f,
        n,
        0,
    ) == file_open_in(pre, f) by {
        if finalized_by(pre_streams, f, n, 0) {
            let (a, b) = choose|a: int, b: int|
                {
                    &&& 0 <= a < pre_streams.len()
                    &&& 0 <= b < pre_streams[a].slots@.len()
                    &&& processed_before(a, b, n, 0)
                    &&& !(#[trigger] pre_streams[a].slots@[b]).writer.poisoned
                    &&& pre_streams[a].slots@[b].writer.state matches SlotState::Open { file }
                        && file == f
                };
            lemma_inv_at(pre_streams, pre, a, b);
            assert(pre.files[f].stream == pre_streams[a].name@);
            assert(pre.files[f].schema_key == pre_streams[a].slots@[b].key@);
            assert(file_open_in(pre, f));
        }
        if file_open_in(pre, f) {
            let s = pre.files[f].stream;
            let k = pre.files[f].schema_key;
            lemma_table_view_contains(pre_streams, s);
            let a = choose|a: int|
                0 <= a < pre_streams.len() && #[trigger] pre_streams[a].name@ == s;
            lemma_table_view_at(pre_streams, a);
            lemma_slots_view_contains(pre_streams[a].slots@, k);
            let b = choose|b: int|
                0 <= b < pre_streams[a].slots@.len() && #[trigger] pre_streams[a].slots@[b].key@
                    == k;
            lemma_slots_view_at(pre_streams[a].slots@, b);
            assert(pre_streams[a].slots@[b].writer == pre.slot(s, k));
            assert(processed_before(a, b, n, 0));
            assert(f as usize == f);
            assert(pre_streams[a].slots@[b].writer.state matches SlotState::Open { file } && file
                == f);
            assert(finalized_by(pre_streams, f, n, 0));
        }
    }
    assert forall|f: int| 0 <= f < pre.files.len() implies #[trigger] post.files[f] == (FileModel {
        finalized: pre.files[f].finalized || file_open_in(pre, f),
        ..pre.files[f]
    }) by {
        assert(cur_files[f].finalized == (pre.files[f].finalized || finalized_by(
            pre_streams,
            f,
            n,
            0,
        )));
        assert(cur_files[f] =~= (FileModel {
            finalized: pre.files[f].finalized || file_open_in(pre, f),
            ..pre.files[f]
        }));
    }
    // The sweep's poison report matches the model.
    assert(poisoned_seen(pre_streams, n, 0) == (exists|s: Seq<char>, k: Seq<char>|
        #[trigger] pre.has_slot(s, k) && pre.slot(s, k).poisoned)) by {
        if poisoned_seen(pre_streams, n, 0) {
            let (a, b) = choose|a: int, b: int|
                0 <= a < pre_streams.len() && 0 <= b < pre_streams[a].slots@.len()
                    && processed_before(a, b, n, 0) && (
                #[trigger] pre_streams[a].slots@[b]).writer.poisoned;
            lemma_table_view_at(pre_streams, a);
            lemma_slots_view_at(pre_streams[a].slots@, b);
            assert(pre.has_slot(pre_streams[a].name@, pre_streams[a].slots@[b].key@)
                && pre.slot(pre_streams[a].name@, pre_streams[a].slots@[b].key@).poisoned);
        }
        if exists|s: Seq<char>, k: Seq<char>|
            #[trigger] pre.has_slot(s, k) && pre.slot(s, k).poisoned {
            let (s, k) = choose|s: Seq<char>, k: Seq<char>|
                #[trigger] pre.has_slot(s, k) && pre.slot(s, k).poisoned;
            lemma_table_view_contains(pre_streams, s);
            let a = choose|a: int|
                0 <= a < pre_streams.len() && #[trigger] pre_streams[a].name@ == s;
            lemma_table_view_at(pre_streams, a);
            lemma_slots_view_contains(pre_streams[a].slots@, k);
            let b = choose|b: int|
                0 <= b < pre_streams[a].slots@.len() && #[trigger] pre_streams[a].slots@[b].key@
                    == k;
            lemma_slots_view_at(pre_streams[a].slots@, b);
            assert(processed_before(a, b, n, 0));
            assert(poisoned_seen(pre_streams, n, 0));
        }
    }
    // The registry invariant still holds of the drained state.
    assert forall|s: Seq<char>, k: Seq<char>| #[trigger] post.has_slot(s, k) implies post.slot_ok(
        s,
        k,
    ) by {
        assert(pre.has_slot(s, k));
        assert(post.slot(s, k) == drained_slot(pre.slot(s, k)));
        if pre.slot(s, k).poisoned {
            match pre.slot(s, k).state {
                SlotState::Empty => {},
                SlotState::Open { file } => {
                    assert(pre.slot_ok(s, k));
                    let f = file as int;
                    assert(!pre.files[f].finalized);
                    if file_open_in(pre, f) {
                        // two slots feeding one file is impossible
                        let s2 = pre.files[f].stream;
                        let k2 = pre.files[f].schema_key;
                        lemma_table_view_contains(pre_streams, s);
                        let a = choose|a: int|
                            0 <= a < pre_streams.len() && #[trigger] pre_streams[a].name@ == s;
                        lemma_table_view_at(pre_streams, a);
                        lemma_slots_view_contains(pre_streams[a].slots@, k);
                        let b = choose|b: int|
                            0 <= b < pre_streams[a].slots@.len()
                                && #[trigger] pre_streams[a].slots@[b].key@ == k;
                        lemma_slots_view_at(pre_streams[a].slots@, b);
                        lemma_table_view_contains(pre_streams, s2);
                        let a2 = choose|a: int|
                            0 <= a < pre_streams.len() && #[trigger] pre_streams[a].name@ == s2;
                        lemma_table_view_at(pre_streams, a2);
                        lemma_slots_view_contains(pre_streams[a2].slots@, k2);
                        let b2 = choose|b: int|
                            0 <= b < pre_streams[a2].slots@.len()
                                && #[trigger] pre_streams[a2].slots@[b].key@ == k2;
                        lemma_slots_view_at(pre_streams[a2].slots@, b2);
                        lemma_open_unique(pre_streams, pre, a, b, a2, b2, f);
                        assert(false);
                    }
                    assert(!post.files[f].finalized);
                },
            }
        }
    }
}

/// Creating a writer and its file preserves the registry invariant.
proof fn lemma_inv_after_create(
    pre: RegistryModel,
    post: RegistryModel,
    s: Seq<char>,
    k: Seq<char>,
    b: Batch,
    f: usize,
)
    requires
        pre.inv(),
        f == pre.files.len(),
        append_creates(pre, post, s, k, b, Ok(AppendAction::Created { file: f })),
    ensures
        post.inv(),
{
    assert forall|s2: Seq<char>, k2: Seq<char>| #[trigger] post.has_slot(s2, k2) implies post.slot_ok(
        s2,
        k2,
    ) by {
        if s2 == s && k2 == k {
            assert(post.slot(s2, k2).state == (SlotState::Open { file: f }));
            assert(post.files[f as int].stream == s);
        } else {
            if s2 == s {
                assert(post.table[s2].contains_key(k2));
                if pre.table.contains_key(s) {
                    assert(pre.table[s].contains_key(k2));
                    assert(pre.has_slot(s2, k2));
                    assert(post.slot(s2, k2) == pre.slot(s2, k2));
                    assert(pre.slot_ok(s2, k2));
                } else {
                    assert(false);
                }
            } else {
                assert(pre.has_slot(s2, k2));
                assert(post.slot(s2, k2) == pre.slot(s2, k2));
                assert(pre.slot_ok(s2, k2));
            }
        }
    }
}

/// Serializing a batch into an open writer's file preserves the invariant.
proof fn lemma_inv_after_write(
    pre: RegistryModel,
    post: RegistryModel,
    s: Seq<char>,
    k: Seq<char>,
    file: usize,
)
    requires
        pre.inv(),
        pre.has_slot(s, k),
        pre.slot(s, k).state == (SlotState::Open { file }),
        post.table == pre.table,
        post.files.len() == pre.files.len(),
        forall|g: int|
            0 <= g < pre.files.len() ==> {
                &&& (#[trigger] post.files[g]).finalized == pre.files[g].finalized
                &&& post.files[g].stream == pre.files[g].stream
                &&& post.files[g].schema_key == pre.files[g].schema_key
            },
    ensures
        post.inv(),
{
    assert forall|s2: Seq<char>, k2: Seq<char>| #[trigger] post.has_slot(s2, k2) implies post.slot_ok(
        s2,
        k2,
    ) by {
        assert(pre.has_slot(s2, k2));
        assert(post.slot(s2, k2) == pre.slot(s2, k2));
        assert(pre.slot_ok(s2, k2));
    }
}

} // verus!
