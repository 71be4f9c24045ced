//! The store: a segment log, the table of each segment's records, and the
//! key directory that belongs to them.
//!
//! What the store holds is defined by the records of its log: the history
//! is the commands they carry, and the mapping is what the history replays
//! to. The directory is kept equal to the one that a replay of the records
//! would build, so a lookup goes to one record and never scans.

use crate::codec::{append_bytes, encode, encode_spec, lemma_record_not_empty};
use crate::command::{Command, CommandView};
use crate::error::{KvsError, Result};
use crate::keydir::{
    bytes_lt, has_key, key_at, lemma_has_key_take, lemma_map_at, lemma_total_length_take,
    total_length, KeyDir, Pointer,
};
use crate::model::{
    append_record, lemma_append_record, lemma_index_tracks, lemma_push_empty_table, locates,
    locates_at, log_history, log_index, log_mapping, records_fit, tables_fit, tracks, RecordView,
    TableView,
};
use crate::replay::{
    decode_log, replay_command, replay_log, reported_as, tables_view, Record, Table,
};
use crate::segment::{
    append_to_last, generation_at, generations_increase, lemma_generation_unique, total_bytes,
    with_active, SegmentLog, SegmentView,
};
use vstd::prelude::*;
use vstd::string::*;
use vstd::utf8::*;

verus! {

/// `h` is a compact history of the mapping `m`: one `Put` for each binding
/// of `m` and nothing else, in the byte order of the keys.
pub open spec fn compact_history(h: Seq<CommandView>, m: Map<Seq<char>, Seq<char>>) -> bool {
    &&& forall|i: int|
        0 <= i < h.len() ==> m.contains_key((#[trigger] h[i]).key()) && h[i] == (
        CommandView::Put { key: h[i].key(), value: m[h[i].key()] })
    &&& forall|i: int, j: int|
        0 <= i < j < h.len() ==> bytes_lt(
            encode_utf8((#[trigger] h[i]).key()),
            encode_utf8((#[trigger] h[j]).key()),
        )
    &&& forall|k: Seq<char>| #[trigger]
        m.contains_key(k) ==> exists|i: int| 0 <= i < h.len() && (#[trigger] h[i]).key() == k
}

/// `tabs`, or one table without records for generation 0 where `tabs` is
/// empty.
pub open spec fn with_active_table(tabs: Seq<TableView>) -> Seq<TableView> {
    if tabs.len() == 0 {
        seq![TableView { generation: 0, records: Seq::empty() }]
    } else {
        tabs
    }
}

/// The generations of `tables` strictly increase.
pub open spec fn tables_increase(tables: Seq<Table>) -> bool {
    forall|a: int, b: int|
        0 <= a < b < tables.len() ==> (#[trigger] tables[a]).generation < (
        #[trigger] tables[b]).generation
}

/// The offsets of `records` strictly increase.
pub open spec fn offsets_increase(records: Seq<Record>) -> bool {
    forall|a: int, b: int|
        0 <= a < b < records.len() ==> (#[trigger] records[a]).offset < (
        #[trigger] records[b]).offset
}

/// The position of the table of `generation` among `tables`.
fn find_table(tables: &Vec<Table>, generation: u64) -> (res: Option<usize>)
    requires
        tables_increase(tables@),
    ensures
        match res {
            Some(i) => i < tables@.len() && tables@[i as int].generation == generation,
            None => forall|a: int|
                0 <= a < tables@.len() ==> (#[trigger] tables@[a]).generation != generation,
        },
{
    let mut lo: usize = 0;
    let mut hi: usize = tables.len();
    while lo < hi
        invariant
            lo <= hi <= tables@.len(),
            tables_increase(tables@),
            forall|a: int| 0 <= a < lo ==> (#[trigger] tables@[a]).generation < generation,
            forall|a: int|
                hi <= a < tables@.len() ==> (#[trigger] tables@[a]).generation > generation,
        decreases hi - lo,
    {
        let mid: usize = lo + (hi - lo) / 2;
        let g = tables[mid].generation;
        if g == generation {
            return Some(mid);
        } else if g < generation {
            lo = mid + 1;
        } else {
            hi = mid;
        }
    }
    None
}

/// The position of the record that starts at `offset` among `records`.
fn find_record(records: &Vec<Record>, offset: usize) -> (res: Option<usize>)
    requires
        offsets_increase(records@),
    ensures
        match res {
            Some(j) => j < records@.len() && records@[j as int].offset == offset,
            None => forall|a: int|
                0 <= a < records@.len() ==> (#[trigger] records@[a]).offset != offset,
        },
{
    let mut lo: usize = 0;
    let mut hi: usize = records.len();
    while lo < hi
        invariant
            lo <= hi <= records@.len(),
            offsets_increase(records@),
            forall|a: int| 0 <= a < lo ==> (#[trigger] records@[a]).offset < offset,
            forall|a: int| hi <= a < records@.len() ==> (#[trigger] records@[a]).offset > offset,
        decreases hi - lo,
    {
        let mid: usize = lo + (hi - lo) / 2;
        let at = records[mid].offset;
        if at == offset {
            return Some(mid);
        } else if at < offset {
            lo = mid + 1;
        } else {
            hi = mid;
        }
    }
    None
}

/// A key-value store over an append-only log. The log is all that has to
/// be kept for the store to come back as it was.
pub struct KvStore {
    log: SegmentLog,
    tables: Vec<Table>,
    index: KeyDir,
}

impl View for KvStore {
    type V = Map<Seq<char>, Seq<char>>;

    /// The mapping from key to value that the store holds.
    open spec fn view(&self) -> Map<Seq<char>, Seq<char>> {
        log_mapping(self.tables())
    }
}

impl KvStore {
    /// The segments of the log, oldest generation first; the last is active.
    pub closed spec fn segments(&self) -> Seq<SegmentView> {
        self.log@
    }

    /// The records of each segment, in the order of the segments.
    pub closed spec fn tables(&self) -> Seq<TableView> {
        tables_view(self.tables@)
    }

    /// The key directory: each live key with the pointer to its record.
    pub closed spec fn directory(&self) -> Map<Seq<char>, Pointer> {
        self.index@
    }

    /// Every command ever logged and not compacted away, oldest first.
    pub open spec fn history(&self) -> Seq<CommandView> {
        log_history(self.tables())
    }

    /// The store's invariant: the log is in generation order and has an
    /// active segment; each segment has its table, whose records fit it;
    /// the directory is the one that belongs to the records; its pointers
    /// cover no more bytes than the log has.
    pub closed spec fn wf(&self) -> bool {
        &&& self.log.wf()
        &&& self.index.wf()
        &&& self.log@.len() > 0
        &&& tables_fit(tables_view(self.tables@), self.log@)
        &&& self.index@ == log_index(tables_view(self.tables@))
        &&& self.index.pointed_bytes() <= total_bytes(self.log@)
    }

    /// What the invariant says of the log, the tables and the directory.
    pub proof fn lemma_wf(&self)
        requires
            self.wf(),
        ensures
            self.segments().len() > 0,
            generations_increase(self.segments()),
            tables_fit(self.tables(), self.segments()),
            self.directory() == log_index(self.tables()),
            tracks(self.tables(), self.directory()),
    {
        lemma_index_tracks(self.tables());
    }

    /// The tables are in generation order, and so are the offsets in each.
    proof fn lemma_ordered(&self)
        requires
            self.wf(),
        ensures
            tables_increase(self.tables@),
            forall|i: int|
                0 <= i < self.tables@.len() ==> offsets_increase(
                    (#[trigger] self.tables@[i]).records@,
                ),
    {
        let tabs = tables_view(self.tables@);
        let segs = self.log@;
        assert forall|a: int, b: int| 0 <= a < b < self.tables@.len() implies (
        #[trigger] self.tables@[a]).generation < (#[trigger] self.tables@[b]).generation by {
            assert(tabs[a].generation == segs[a].generation);
            assert(tabs[b].generation == segs[b].generation);
        }
        assert forall|i: int| 0 <= i < self.tables@.len() implies offsets_increase(
            (#[trigger] self.tables@[i]).records@,
        ) by {
            let records = self.tables@[i].records@;
            let views = tabs[i].records;
            assert(records_fit(views, segs[i].bytes.len()));
            assert forall|a: int, b: int| 0 <= a < b < records.len() implies (
            #[trigger] records[a]).offset < (#[trigger] records[b]).offset by {
                assert(views[a].offset + views[a].length <= views[b].offset);
                assert(views[a].length > 0);
            }
        }
    }

    /// The command of the record that `pointer` points at, where it points
    /// at one.
    fn command_at(&self, pointer: Pointer) -> (res: Option<&Command>)
        requires
            self.wf(),
        ensures
            res matches Some(command) ==> locates(self.tables(), pointer, command@),
            forall|c: CommandView|
                locates(self.tables(), pointer, c) ==> (res matches Some(command) && command@
                    == c),
    {
        let ghost tabs = self.tables();
        proof {
            self.lemma_ordered();
        }
        let found = match find_table(&self.tables, pointer.generation) {
            None => None,
            Some(i) => {
                let table = &self.tables[i];
                match find_record(&table.records, pointer.offset) {
                    None => None,
                    Some(j) => {
                        let record = &table.records[j];
                        assert(tabs[i as int].records[j as int] == record@);
                        if record.length == pointer.length {
                            assert(locates_at(tabs, pointer, record.command@, i as int, j as int));
                            Some(&record.command)
                        } else {
                            None
                        }
                    },
                }
            },
        };
        proof {
            assert forall|c: CommandView| locates(tabs, pointer, c) implies (found matches Some(
                command,
            ) && command@ == c) by {
                let (a, b) = choose|a: int, b: int| locates_at(tabs, pointer, c, a, b);
                assert(locates_at(tabs, pointer, c, a, b));
                assert(self.tables@[a].generation == pointer.generation);
                assert(tabs[a].records[b] == self.tables@[a].records@[b]@);
                assert(self.tables@[a].records@[b].offset == pointer.offset);
                assert(offsets_increase(self.tables@[a].records@));
            }
        }
        found
    }

    /// Opens a store on the segments of `log`: reads the records of each,
    /// replays them, oldest first, to build the key directory, and starts an
    /// active segment of generation 0 where the log has no segment.
    ///
    /// Fails with the error of the first front, in log order, that is no
    /// record: `Serialization`, which includes a log that ends inside a
    /// record, or `UnexpectedCommandType`.
    pub fn open(log: SegmentLog) -> (res: Result<KvStore>)
        requires
            log.wf(),
        ensures
            match decode_log(log@) {
                Ok(tabs) => {
                    &&& res matches Ok(store)
                    &&& store.wf()
                    &&& store.segments() == with_active(log@)
                    &&& store.tables() == with_active_table(tabs)
                    &&& store.history() == log_history(tabs)
                },
                Err(f) => res matches Err(e) && reported_as(e, f),
            },
    {
        let mut log = log;
        let ghost given = log@;
        let (mut tables, index) = match replay_log(&log) {
            Ok(read) => read,
            Err(e) => {
                return Err(e);
            },
        };
        let ghost tabs = tables_view(tables@);
        if log.len() == 0 {
            proof {
                lemma_push_empty_table(tabs, 0);
                assert(tabs =~= Seq::<TableView>::empty());
            }
            match log.seal_active_and_start_new() {
                Ok(_) => {},
                Err(e) => {
                    return Err(e);
                },
            }
            tables.push(Table { generation: 0, records: Vec::new() });
            assert(log@ =~= with_active(given));
            assert(tables@[0]@.records =~= Seq::<RecordView>::empty());
            assert(tables_view(tables@) =~= with_active_table(tabs));
        }
        Ok(KvStore { log, tables, index })
    }

    /// Binds `key` to `value`: appends the record of a `Put` to the active
    /// segment and points the directory at it.
    ///
    /// Fails with `Serialization`, and changes nothing, exactly when the
    /// JSON layer cannot write the record.
    pub fn set(&mut self, key: String, value: String) -> (res: Result<()>)
        requires
            old(self).wf(),
        ensures
            final(self).wf(),
            match encode_spec(CommandView::Put { key: key@, value: value@ }) {
                Ok(record) => {
                    let c = CommandView::Put { key: key@, value: value@ };
                    &&& res is Ok
                    &&& final(self).segments() == append_to_last(old(self).segments(), record)
                    &&& final(self).history() == old(self).history().push(c)
                    &&& final(self)@ == old(self)@.insert(key@, value@)
                },
                Err(cause) => {
                    &&& res matches Err(KvsError::Serialization { cause: text })
                    &&& text@ == cause
                    &&& final(self).segments() == old(self).segments()
                    &&& final(self).tables() == old(self).tables()
                    &&& final(self).directory() == old(self).directory()
                },
            },
    {
        let command = Command::Put { key, value };
        let record = match encode(&command) {
            Ok(record) => record,
            Err(e) => {
                return Err(e);
            },
        };
        proof {
            lemma_record_not_empty(command@);
        }
        self.log_command(command, record.as_slice())
    }

    /// The value of `key`, or `None` where the key is not bound. The store
    /// stays as it is.
    pub fn get(&mut self, key: String) -> (res: Result<Option<String>>)
        requires
            old(self).wf(),
        ensures
            final(self).wf(),
            final(self).segments() == old(self).segments(),
            final(self).tables() == old(self).tables(),
            final(self).directory() == old(self).directory(),
            res matches Ok(found) && match found {
                Some(value) => old(self)@.contains_key(key@) && value@ == old(self)@[key@],
                None => !old(self)@.contains_key(key@),
            },
    {
        proof {
            self.lemma_wf();
        }
        let pointer = match self.index.get(key.as_str()) {
            Some(pointer) => pointer,
            None => {
                return Ok(None);
            },
        };
        let ghost c = CommandView::Put { key: key@, value: self@[key@] };
        assert(locates(self.tables(), pointer, c));
        match self.command_at(pointer) {
            Some(Command::Put { value, .. }) => Ok(Some(value.clone())),
            _ => Err(KvsError::UnexpectedCommandType),
        }
    }

    /// Unbinds `key`: appends the record of a `Remove` to the active
    /// segment and drops the key from the directory.
    ///
    /// Fails with `KeyNotFound`, and changes nothing, exactly when the key
    /// is not bound; for a bound key it fails with `Serialization`, and
    /// changes nothing, exactly when the JSON layer cannot write the record.
    pub fn remove(&mut self, key: String) -> (res: Result<()>)
        requires
            old(self).wf(),
        ensures
            final(self).wf(),
            res is Err ==> {
                &&& final(self).segments() == old(self).segments()
                &&& final(self).tables() == old(self).tables()
                &&& final(self).directory() == old(self).directory()
            },
            !old(self)@.contains_key(key@) ==> res matches Err(KvsError::KeyNotFound),
            old(self)@.contains_key(key@) ==> match encode_spec(
                CommandView::Remove { key: key@ },
            ) {
                Ok(record) => {
                    let c = CommandView::Remove { key: key@ };
                    &&& res is Ok
                    &&& final(self).segments() == append_to_last(old(self).segments(), record)
                    &&& final(self).history() == old(self).history().push(c)
                    &&& final(self)@ == old(self)@.remove(key@)
                },
                Err(cause) => res matches Err(KvsError::Serialization { cause: text }) && text@
                    == cause,
            },
    {
        proof {
            self.lemma_wf();
        }
        if !self.index.contains_key(key.as_str()) {
            return Err(KvsError::KeyNotFound);
        }
        let command = Command::Remove { key };
        let record = match encode(&command) {
            Ok(record) => record,
            Err(e) => {
                return Err(e);
            },
        };
        proof {
            lemma_record_not_empty(command@);
        }
        self.log_command(command, record.as_slice())
    }

    /// Appends `record`, the text of `command`, to the active segment, notes
    /// it in the active table, and folds the command into the directory.
    /// This is the step that `set` and `remove` take once the record is
    /// written; whoever calls it with other bytes gets a log that does not
    /// read back as the store it was.
    ///
    /// Fails with `Serialization`, and changes nothing, exactly when
    /// `record` is empty.
    pub fn log_command(&mut self, command: Command, record: &[u8]) -> (res: Result<()>)
        requires
            old(self).wf(),
        ensures
            final(self).wf(),
            match res {
                Ok(()) => {
                    &&& record@.len() > 0
                    &&& final(self).segments() == append_to_last(old(self).segments(), record@)
                    &&& final(self).tables() == append_record(
                        old(self).tables(),
                        RecordView {
                            command: command@,
                            offset: old(self).segments().last().bytes.len() as usize,
                            length: record@.len() as usize,
                        },
                    )
                    &&& final(self).history() == old(self).history().push(command@)
                    &&& final(self)@ == command@.apply(old(self)@)
                },
                Err(e) => {
                    &&& record@.len() == 0
                    &&& e is Serialization
                    &&& final(self).segments() == old(self).segments()
                    &&& final(self).tables() == old(self).tables()
                    &&& final(self).directory() == old(self).directory()
                },
            },
    {
        if record.len() == 0 {
            return Err(KvsError::Serialization { cause: "empty record".to_string() });
        }
        let ghost segs = self.log@;
        let ghost tabs = tables_view(self.tables@);
        let pointer = self.log.append(record);
        let ghost r = RecordView {
            command: command@,
            offset: pointer.offset,
            length: pointer.length,
        };
        proof {
            self.log.lemma_sizes_fit();
            assert(self.log@[self.log@.len() - 1].bytes.len() <= usize::MAX);
            lemma_append_record(tabs, r);
        }
        replay_command(&command, pointer, &mut self.index);
        let mut active = match self.tables.pop() {
            Some(table) => table,
            None => Table { generation: pointer.generation, records: Vec::new() },
        };
        let ghost before = active@;
        assert(before == tabs.last());
        active.records.push(Record { command, offset: pointer.offset, length: pointer.length });
        assert(active@.records =~= before.records.push(r));
        self.tables.push(active);
        proof {
            let tabs2 = tables_view(self.tables@);
            let segs2 = self.log@;
            let n = tabs.len() - 1;
            assert(tabs2 =~= append_record(tabs, r));
            assert forall|i: int| 0 <= i < tabs2.len() implies (#[trigger] tabs2[i]).generation
                == segs2[i].generation && records_fit(tabs2[i].records, segs2[i].bytes.len()) by {
                if i < n {
                    assert(tabs2[i] == tabs[i]);
                    assert(segs2[i] == segs[i]);
                } else {
                    let records = tabs[n].records;
                    assert(records_fit(records, segs[n].bytes.len()));
                    assert(segs2[n].bytes.len() == segs[n].bytes.len() + record@.len());
                    let records2 = tabs2[n].records;
                    assert forall|j: int| 0 <= j < records2.len() implies (
                    #[trigger] records2[j]).length > 0 && records2[j].offset + records2[j].length
                        <= segs2[n].bytes.len() by {
                        if j < records.len() {
                            assert(records2[j] == records[j]);
                        }
                    }
                    assert forall|a: int, b: int| 0 <= a < b < records2.len() implies (
                    #[trigger] records2[a]).offset + records2[a].length <= (
                    #[trigger] records2[b]).offset by {
                        assert(records2[a] == records[a]);
                        if b < records.len() {
                            assert(records2[b] == records[b]);
                        }
                    }
                }
            }
            lemma_total_bytes_append(segs, record@);
        }
        Ok(())
    }

    /// Rewrites the log as one fresh segment that holds one `Put` record
    /// for each live key, in key order, and nothing else. Each record is
    /// the text of the live record, copied as it stands. The fresh segment
    /// takes the generation after the active one and becomes the active
    /// segment; all earlier segments are dropped. The mapping stays as it
    /// is, and the log does not grow.
    ///
    /// Fails with `Io`, and changes nothing, exactly when the active
    /// generation is `u64::MAX`.
    pub fn compact(&mut self) -> (res: Result<()>)
        requires
            old(self).wf(),
        ensures
            final(self).wf(),
            match res {
                Ok(()) => {
                    &&& old(self).segments().last().generation < u64::MAX
                    &&& final(self).segments().len() == 1
                    &&& final(self).segments()[0].generation == old(
                        self,
                    ).segments().last().generation + 1
                    &&& final(self)@ == old(self)@
                    &&& compact_history(final(self).history(), old(self)@)
                    &&& total_bytes(final(self).segments()) <= total_bytes(old(self).segments())
                },
                Err(e) => {
                    &&& e is Io
                    &&& old(self).segments().last().generation == u64::MAX
                    &&& final(self).segments() == old(self).segments()
                    &&& final(self).tables() == old(self).tables()
                    &&& final(self).directory() == old(self).directory()
                },
            },
    {
        proof {
            self.lemma_wf();
        }
        let ghost old_segs = self.log@;
        let ghost old_tabs = tables_view(self.tables@);
        let ghost entries = self.index.entries();
        let ghost v = log_mapping(old_tabs);
        let active = match self.log.active_generation() {
            Some(generation) => generation,
            None => 0,
        };
        if active == u64::MAX {
            return Err(KvsError::Io { reason: "segment generations are used up".to_string() });
        }
        let next: u64 = active + 1;
        let mut bytes: Vec<u8> = Vec::new();
        let mut records: Vec<Record> = Vec::new();
        let mut fresh = KeyDir::new();
        let n = self.index.len();
        let mut i: usize = 0;
        let ghost mut tabs = seq![TableView { generation: next, records: Seq::empty() }];
        proof {
            lemma_push_empty_table(Seq::empty(), next);
            assert(Seq::<TableView>::empty().push(
                TableView { generation: next, records: Seq::empty() },
            ) =~= tabs);
            assert(records@.map_values(|r: Record| r@) =~= Seq::<RecordView>::empty());
            assert(entries.take(0) =~= Seq::<(Seq<char>, Pointer)>::empty());
            assert forall|k: Seq<char>| !has_key(entries.take(0), k) by {
                if has_key(entries.take(0), k) {
                    let j = choose|j: int| key_at(entries.take(0), k, j);
                    assert(key_at(entries.take(0), k, j));
                }
            }
        }
        while i < n
            invariant
                self.wf(),
                old_segs == self.log@,
                old_tabs == tables_view(self.tables@),
                entries == self.index.entries(),
                v == log_mapping(old_tabs),
                generations_increase(old_segs),
                tables_fit(old_tabs, old_segs),
                tracks(old_tabs, self.index@),
                n == entries.len(),
                i <= n,
                tabs == seq![
                    TableView { generation: next, records: records@.map_values(|r: Record| r@) },
                ],
                records_fit(records@.map_values(|r: Record| r@), bytes@.len()),
                fresh.wf(),
                fresh@ == log_index(tabs),
                fresh.pointed_bytes() <= bytes@.len(),
                bytes@.len() == total_length(entries.take(i as int)),
                log_history(tabs).len() == i,
                forall|j: int|
                    0 <= j < i ==> #[trigger] log_history(tabs)[j] == (
                    CommandView::Put { key: entries[j].0, value: v[entries[j].0] }),
                forall|k: Seq<char>| #[trigger]
                    log_mapping(tabs).contains_key(k) <==> has_key(entries.take(i as int), k),
                forall|k: Seq<char>| #[trigger]
                    log_mapping(tabs).contains_key(k) ==> log_mapping(tabs)[k] == v[k],
            decreases n - i,
        {
            let key = self.index.key_at(i);
            let pointer = self.index.pointer_at(i);
            let ghost c = CommandView::Put { key: key@, value: v[key@] };
            proof {
                lemma_map_at(entries, i as int);
                assert(locates(old_tabs, pointer, c));
                let (a, b) = choose|a: int, b: int| locates_at(old_tabs, pointer, c, a, b);
                assert(generation_at(old_segs, pointer.generation, a));
                lemma_generation_unique(old_segs, pointer.generation, a);
                assert(records_fit(old_tabs[a].records, old_segs[a].bytes.len()));
                assert(old_tabs[a].records[b].length > 0);
            }
            let text = match self.log.read_at(pointer) {
                Ok(text) => text,
                Err(e) => {
                    return Err(e);
                },
            };
            assert(locates(self.tables(), pointer, c));
            let value = match self.command_at(pointer) {
                Some(Command::Put { value, .. }) => value.clone(),
                _ => {
                    return Err(
                        KvsError::Io { reason: "directory points at no record".to_string() },
                    );
                },
            };
            let offset = bytes.len();
            let ghost done = records@.map_values(|r: Record| r@);
            append_bytes(&mut bytes, text);
            let ghost r = RecordView { command: c, offset, length: pointer.length };
            records.push(
                Record {
                    command: Command::Put { key: key.clone(), value },
                    offset,
                    length: pointer.length,
                },
            );
            let ghost tabs2 = seq![
                TableView { generation: next, records: records@.map_values(|r: Record| r@) },
            ];
            proof {
                let h = log_history(tabs);
                assert(bytes@.len() == bytes.len());
                assert(records@.map_values(|r: Record| r@) =~= done.push(r));
                lemma_append_record(tabs, r);
                assert(append_record(tabs, r) =~= tabs2);
                lemma_total_length_take(entries, i as int);
                let done2 = done.push(r);
                assert forall|j: int| 0 <= j < done2.len() implies (#[trigger] done2[j]).length > 0
                    && done2[j].offset + done2[j].length <= bytes@.len() by {
                    if j < done.len() {
                        assert(done2[j] == done[j]);
                    }
                }
                assert forall|a: int, b: int| 0 <= a < b < done2.len() implies (
                #[trigger] done2[a]).offset + done2[a].length <= (#[trigger] done2[b]).offset by {
                    assert(done2[a] == done[a]);
                    if b < done.len() {
                        assert(done2[b] == done[b]);
                    }
                }
                assert forall|j: int| 0 <= j < i + 1 implies #[trigger] h.push(c)[j] == (
                CommandView::Put { key: entries[j].0, value: v[entries[j].0] }) by {
                    if j < i {
                        assert(h.push(c)[j] == h[j]);
                    }
                }
                assert forall|k: Seq<char>| #[trigger]
                    log_mapping(tabs2).contains_key(k) <==> has_key(
                        entries.take(i + 1),
                        k,
                    ) by {
                    lemma_has_key_take(entries, i as int, k);
                    assert(log_mapping(tabs).contains_key(k) <==> has_key(
                        entries.take(i as int),
                        k,
                    ));
                }
                assert forall|k: Seq<char>| #[trigger]
                    log_mapping(tabs2).contains_key(k) implies log_mapping(tabs2)[k] == v[k] by {
                    if k != key@ {
                        assert(log_mapping(tabs).contains_key(k));
                    }
                }
                tabs = tabs2;
            }
            fresh.put(key.clone(), Pointer { generation: next, offset, length: pointer.length });
            i += 1;
        }
        let mut log = SegmentLog::new();
        log.add_segment(next, bytes);
        let mut tables: Vec<Table> = Vec::new();
        tables.push(Table { generation: next, records });
        proof {
            let h = log_history(tabs);
            assert(log@ =~= seq![SegmentView { generation: next, bytes: bytes@ }]);
            assert(tables_view(tables@) =~= tabs);
            assert(entries.take(n as int) =~= entries);
            assert(log_mapping(tabs) =~= v);
            assert(total_bytes(log@.drop_last()) == 0);
            assert(compact_history(h, v)) by {
                assert forall|a: int, b: int| 0 <= a < b < h.len() implies bytes_lt(
                    encode_utf8((#[trigger] h[a]).key()),
                    encode_utf8((#[trigger] h[b]).key()),
                ) by {
                    assert(bytes_lt(encode_utf8(entries[a].0), encode_utf8(entries[b].0)));
                }
                assert forall|i: int| 0 <= i < h.len() implies v.contains_key(
                    (#[trigger] h[i]).key(),
                ) && h[i] == (CommandView::Put { key: h[i].key(), value: v[h[i].key()] }) by {
                    lemma_map_at(entries, i);
                }
                assert forall|k: Seq<char>| #[trigger] v.contains_key(k) implies exists|i: int|
                    0 <= i < h.len() && (#[trigger] h[i]).key() == k by {
                    let j = choose|j: int| key_at(entries, k, j);
                    assert(key_at(entries, k, j));
                    assert(h[j].key() == k);
                }
            }
        }
        self.log = log;
        self.tables = tables;
        self.index = fresh;
        Ok(())
    }

    /// The log, for whoever keeps it on disk.
    pub fn log(&self) -> (log: &SegmentLog)
        ensures
            log@ == self.segments(),
            self.wf() ==> log.wf(),
    {
        &self.log
    }

    /// The key directory.
    pub fn index(&self) -> (index: &KeyDir)
        ensures
            index@ == self.directory(),
            self.wf() ==> index.wf(),
    {
        &self.index
    }

    /// Closes the store and hands back its log.
    pub fn into_log(self) -> (log: SegmentLog)
        ensures
            log@ == self.segments(),
            self.wf() ==> log.wf(),
    {
        self.log
    }
}

/// Bytes appended to the last segment add to the size of the log.
proof fn lemma_total_bytes_append(segs: Seq<SegmentView>, r: Seq<u8>)
    requires
        segs.len() > 0,
    ensures
        total_bytes(append_to_last(segs, r)) == total_bytes(segs) + r.len(),
{
    assert(append_to_last(segs, r).drop_last() =~= segs.drop_last());
}

} // verus!
