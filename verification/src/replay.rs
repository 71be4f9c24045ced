//! The replay engine: reads the records of each segment into a table and
//! folds them, oldest first, into a key directory.

use crate::codec::{decode, decode_spec, Decoded};
use crate::command::Command;
use crate::error::{KvsError, Result};
use crate::keydir::{KeyDir, Pointer};
use crate::model::{
    apply_pointer, log_index, pointer_of, records_fit, table_index, tables_fit, RecordView,
    TableView,
};
use crate::segment::{total_bytes, SegmentLog, SegmentView};
use vstd::prelude::*;
use vstd::slice::*;
use vstd::string::*;

verus! {

/// One record of a segment: the command it carries and where its text lies.
pub struct Record {
    pub command: Command,
    pub offset: usize,
    pub length: usize,
}

impl View for Record {
    type V = RecordView;

    open spec fn view(&self) -> RecordView {
        RecordView { command: self.command@, offset: self.offset, length: self.length }
    }
}

/// The records of one segment, oldest first.
pub struct Table {
    pub generation: u64,
    pub records: Vec<Record>,
}

impl View for Table {
    type V = TableView;

    open spec fn view(&self) -> TableView {
        TableView {
            generation: self.generation,
            records: self.records@.map_values(|r: Record| r@),
        }
    }
}

/// The mathematical content of a list of tables.
pub open spec fn tables_view(tables: Seq<Table>) -> Seq<TableView> {
    tables.map_values(|t: Table| t@)
}

/// Why a stream of records cannot be read.
pub enum Failure {
    /// Some front of it is not a record.
    Malformed { cause: Seq<char> },
    /// Some front of it is a record of an unknown variant.
    UnknownTag,
}

/// The error `e` reports the failure `f`.
pub open spec fn reported_as(e: KvsError, f: Failure) -> bool {
    match f {
        Failure::Malformed { cause } => e matches KvsError::Serialization { cause: text } && text@
            == cause,
        Failure::UnknownTag => e is UnexpectedCommandType,
    }
}

/// What is said of a record whose length is zero or reaches beyond the
/// stream.
pub open spec fn cause_bad_length() -> Seq<char> {
    "record length out of range"@
}

/// `done` followed by the records of `rest`, or the failure of `rest`.
pub open spec fn prepend(
    done: Seq<RecordView>,
    rest: core::result::Result<Seq<RecordView>, Failure>,
) -> core::result::Result<Seq<RecordView>, Failure> {
    match rest {
        Ok(records) => Ok(done + records),
        Err(f) => Err(f),
    }
}

/// The records of `bytes` from offset `from` on, or the failure of the
/// first front that is no record. The stream ends where only white space
/// is left.
pub open spec fn decode_records(bytes: Seq<u8>, from: int) -> core::result::Result<
    Seq<RecordView>,
    Failure,
>
    decreases bytes.len() - from,
{
    if from < 0 || from >= bytes.len() {
        Ok(Seq::empty())
    } else {
        match decode_spec(bytes.skip(from)) {
            Decoded::End => Ok(Seq::empty()),
            Decoded::Malformed { cause } => Err(Failure::Malformed { cause }),
            Decoded::UnknownTag => Err(Failure::UnknownTag),
            Decoded::Record { command, length } => {
                if 0 < length && length <= bytes.len() - from {
                    prepend(
                        seq![RecordView { command, offset: from as usize, length }],
                        decode_records(bytes, from + length),
                    )
                } else {
                    Err(Failure::Malformed { cause: cause_bad_length() })
                }
            },
        }
    }
}

/// The tables of the segments of `segs`, or the failure of the first
/// segment, in log order, that cannot be read.
pub open spec fn decode_log(segs: Seq<SegmentView>) -> core::result::Result<
    Seq<TableView>,
    Failure,
>
    decreases segs.len(),
{
    if segs.len() == 0 {
        Ok(Seq::empty())
    } else {
        match decode_log(segs.drop_last()) {
            Err(f) => Err(f),
            Ok(earlier) => match decode_records(segs.last().bytes, 0) {
                Ok(records) => Ok(
                    earlier.push(TableView { generation: segs.last().generation, records }),
                ),
                Err(f) => Err(f),
            },
        }
    }
}

/// The number of bytes that `records` take together.
pub open spec fn records_len(records: Seq<RecordView>) -> nat
    decreases records.len(),
{
    if records.len() == 0 {
        0
    } else {
        records_len(records.drop_last()) + records.last().length as nat
    }
}

/// Records that fit a segment take no more bytes than it has.
pub proof fn lemma_records_len(records: Seq<RecordView>, size: nat)
    requires
        records_fit(records, size),
    ensures
        records_len(records) <= size,
        records.len() > 0 ==> records_len(records) <= records.last().offset
            + records.last().length,
    decreases records.len(),
{
    if records.len() > 0 {
        let earlier = records.drop_last();
        let n = records.len() - 1;
        assert forall|j: int| 0 <= j < earlier.len() implies (#[trigger] earlier[j]).length > 0
            && earlier[j].offset + earlier[j].length <= records[n].offset by {
            assert(earlier[j] == records[j]);
        }
        assert forall|i: int, j: int| 0 <= i < j < earlier.len() implies (
        #[trigger] earlier[i]).offset + earlier[i].length <= (#[trigger] earlier[j]).offset by {
            assert(earlier[i] == records[i]);
            assert(earlier[j] == records[j]);
        }
        lemma_records_len(earlier, records[n].offset as nat);
        assert(records[n].offset + records[n].length <= size);
    }
}

/// A failure among the first segments of a log is the failure of the log.
proof fn lemma_failure_stays(segs: Seq<SegmentView>, n: int)
    requires
        0 <= n <= segs.len(),
        decode_log(segs.take(n)) is Err,
    ensures
        decode_log(segs) == decode_log(segs.take(n)),
    decreases segs.len(),
{
    if n == segs.len() {
        assert(segs.take(n) =~= segs);
    } else {
        assert(segs.drop_last().take(n) =~= segs.take(n));
        lemma_failure_stays(segs.drop_last(), n);
    }
}

/// Folds one command, whose record is at `pointer`, into `index`: a `Put`
/// binds its key to `pointer`, overwriting any earlier pointer; a `Remove`
/// unbinds its key, and is no error where the key is not bound.
pub fn replay_command(command: &Command, pointer: Pointer, index: &mut KeyDir)
    requires
        old(index).wf(),
    ensures
        final(index).wf(),
        final(index)@ == apply_pointer(old(index)@, command@, pointer),
        final(index).pointed_bytes() <= old(index).pointed_bytes() + pointer.length,
{
    match command {
        Command::Put { key, .. } => {
            index.put(key.clone(), pointer);
        },
        Command::Remove { key } => {
            index.remove(key.as_str());
        },
    }
}

/// Reads the records of one segment, in file order, into a table.
///
/// Fails with the error of the first front that is no record:
/// `Serialization` where it is malformed, cut short, or of a length that
/// does not fit the stream, `UnexpectedCommandType` where its variant is
/// unknown.
pub fn decode_table(generation: u64, bytes: &[u8]) -> (res: Result<Table>)
    ensures
        match decode_records(bytes@, 0) {
            Ok(records) => res matches Ok(table) && table@ == (TableView { generation, records })
                && records_fit(records, bytes@.len()),
            Err(f) => res matches Err(e) && reported_as(e, f),
        },
{
    let mut records: Vec<Record> = Vec::new();
    let mut pos: usize = 0;
    proof {
        match decode_records(bytes@, 0) {
            Ok(all) => {
                assert(records@.map_values(|r: Record| r@) + all =~= all);
            },
            Err(_) => {},
        }
    }
    while pos < bytes.len()
        invariant
            pos <= bytes@.len(),
            decode_records(bytes@, 0) == prepend(
                records@.map_values(|r: Record| r@),
                decode_records(bytes@, pos as int),
            ),
            records_fit(records@.map_values(|r: Record| r@), pos as nat),
        decreases bytes@.len() - pos,
    {
        let ghost done = records@.map_values(|r: Record| r@);
        let window = slice_subrange(bytes, pos, bytes.len());
        assert(window@ =~= bytes@.skip(pos as int));
        let found = decode(window);
        match found {
            Err(e) => {
                return Err(e);
            },
            Ok(None) => {
                assert(done + Seq::<RecordView>::empty() =~= done);
                return Ok(Table { generation, records });
            },
            Ok(Some((command, length))) => {
                if length == 0 || length > bytes.len() - pos {
                    return Err(
                        KvsError::Serialization { cause: "record length out of range".to_owned() },
                    );
                }
                let ghost r = RecordView { command: command@, offset: pos, length };
                proof {
                    match decode_records(bytes@, pos + length) {
                        Ok(rest) => {
                            assert(done + (seq![r] + rest) =~= done.push(r) + rest);
                        },
                        Err(_) => {},
                    }
                }
                records.push(Record { command, offset: pos, length });
                assert(records@.map_values(|r: Record| r@) =~= done.push(r));
                pos = pos + length;
            },
        }
    }
    assert(records@.map_values(|r: Record| r@) + Seq::<RecordView>::empty()
        =~= records@.map_values(|r: Record| r@));
    Ok(Table { generation, records })
}

/// Folds the records of `table`, in order, into `index`.
pub fn replay_table(table: &Table, index: &mut KeyDir)
    requires
        old(index).wf(),
    ensures
        final(index).wf(),
        final(index)@ == table_index(old(index)@, table.generation, table@.records),
        final(index).pointed_bytes() <= old(index).pointed_bytes() + records_len(table@.records),
{
    let ghost all = table@.records;
    let mut j: usize = 0;
    assert(all.take(0) =~= Seq::<RecordView>::empty());
    while j < table.records.len()
        invariant
            j <= all.len(),
            all == table@.records,
            all.len() == table.records@.len(),
            index.wf(),
            index@ == table_index(old(index)@, table.generation, all.take(j as int)),
            index.pointed_bytes() <= old(index).pointed_bytes() + records_len(
                all.take(j as int),
            ),
        decreases all.len() - j,
    {
        let record = &table.records[j];
        assert(all[j as int] == record@);
        proof {
            assert(all.take(j + 1).drop_last() =~= all.take(j as int));
            assert(all.take(j + 1).last() == all[j as int]);
        }
        let pointer = Pointer {
            generation: table.generation,
            offset: record.offset,
            length: record.length,
        };
        assert(pointer == pointer_of(table.generation, all[j as int]));
        replay_command(&record.command, pointer, index);
        j += 1;
    }
    assert(all.take(j as int) =~= all);
}

/// Reads a log: the table of every segment, and the key directory that
/// comes of replaying them, oldest generation first, into an empty one.
///
/// Fails with the error of the first segment that cannot be read.
pub fn replay_log(log: &SegmentLog) -> (res: Result<(Vec<Table>, KeyDir)>)
    requires
        log.wf(),
    ensures
        match decode_log(log@) {
            Ok(tabs) => {
                &&& res matches Ok(read)
                &&& tables_view(read.0@) == tabs
                &&& tables_fit(tabs, log@)
                &&& read.1.wf()
                &&& read.1@ == log_index(tabs)
                &&& read.1.pointed_bytes() <= total_bytes(log@)
            },
            Err(f) => res matches Err(e) && reported_as(e, f),
        },
{
    let mut index = KeyDir::new();
    let mut tables: Vec<Table> = Vec::new();
    let mut i: usize = 0;
    assert(log@.take(0) =~= Seq::<SegmentView>::empty());
    assert(tables_view(tables@) =~= Seq::<TableView>::empty());
    while i < log.len()
        invariant
            i <= log@.len(),
            index.wf(),
            decode_log(log@.take(i as int)) == Ok::<Seq<TableView>, Failure>(
                tables_view(tables@),
            ),
            tables_fit(tables_view(tables@), log@.take(i as int)),
            index@ == log_index(tables_view(tables@)),
            index.pointed_bytes() <= total_bytes(log@.take(i as int)),
        decreases log@.len() - i,
    {
        let ghost before = tables_view(tables@);
        proof {
            assert(log@.take(i + 1).drop_last() =~= log@.take(i as int));
            assert(log@.take(i + 1).last() == log@[i as int]);
        }
        let bytes = log.bytes_at(i);
        match decode_table(log.generation_at(i), bytes.as_slice()) {
            Err(e) => {
                proof {
                    lemma_failure_stays(log@, i + 1);
                }
                return Err(e);
            },
            Ok(table) => {
                proof {
                    lemma_records_len(table@.records, bytes@.len());
                }
                replay_table(&table, &mut index);
                tables.push(table);
                proof {
                    let after = tables_view(tables@);
                    assert(after =~= before.push(table@));
                    assert(after.drop_last() =~= before);
                    assert forall|a: int| 0 <= a < after.len() implies (
                    #[trigger] after[a]).generation == log@.take(i + 1)[a].generation
                        && records_fit(after[a].records, log@.take(i + 1)[a].bytes.len()) by {
                        if a < i {
                            assert(after[a] == before[a]);
                            assert(log@.take(i + 1)[a] == log@.take(i as int)[a]);
                        }
                    }
                }
            },
        }
        i += 1;
    }
    assert(log@.take(i as int) =~= log@);
    Ok((tables, index))
}

} // verus!
