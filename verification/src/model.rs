//! What a log means: the records its segments hold, the history of commands
//! they carry, the mapping that the history replays to, and the key
//! directory that belongs to it.
//!
//! A segment's records are kept in a table, each with its command and the
//! place of its text in the segment. The lemmas here connect table, history
//! and directory. Their centre is the step `lemma_append_record`: one more
//! record at the end of the log is one more command in the history and one
//! more `apply_pointer` on the directory.

use crate::command::{replay_spec, CommandView};
use crate::keydir::Pointer;
use crate::segment::SegmentView;
use vstd::prelude::*;

verus! {

/// One record of a segment: the command it carries and where its text lies.
pub struct RecordView {
    pub command: CommandView,
    pub offset: usize,
    pub length: usize,
}

/// The records of one segment, oldest first.
pub struct TableView {
    pub generation: u64,
    pub records: Seq<RecordView>,
}

/// The pointer to the record `r` of segment `generation`.
pub open spec fn pointer_of(generation: u64, r: RecordView) -> Pointer {
    Pointer { generation, offset: r.offset, length: r.length }
}

/// The records of `records` are not empty, lie inside the first `size`
/// bytes, and follow each other without overlap.
pub open spec fn records_fit(records: Seq<RecordView>, size: nat) -> bool {
    &&& forall|j: int|
        0 <= j < records.len() ==> (#[trigger] records[j]).length > 0 && records[j].offset
            + records[j].length <= size
    &&& forall|i: int, j: int|
        0 <= i < j < records.len() ==> (#[trigger] records[i]).offset + records[i].length <= (
        #[trigger] records[j]).offset
}

/// `tabs` holds one table for each segment of `segs`, under its generation
/// and with records that fit its bytes.
pub open spec fn tables_fit(tabs: Seq<TableView>, segs: Seq<SegmentView>) -> bool {
    &&& tabs.len() == segs.len()
    &&& forall|i: int|
        0 <= i < tabs.len() ==> (#[trigger] tabs[i]).generation == segs[i].generation
            && records_fit(tabs[i].records, segs[i].bytes.len())
}

/// The commands of `tabs`, oldest first.
pub open spec fn log_history(tabs: Seq<TableView>) -> Seq<CommandView>
    decreases tabs.len(),
{
    if tabs.len() == 0 {
        Seq::empty()
    } else {
        log_history(tabs.drop_last()) + tabs.last().records.map_values(
            |r: RecordView| r.command,
        )
    }
}

/// The directory `dir` after the command `c`, whose record is at `p`:
/// a `Put` binds its key to `p`, a `Remove` unbinds its key.
pub open spec fn apply_pointer(
    dir: Map<Seq<char>, Pointer>,
    c: CommandView,
    p: Pointer,
) -> Map<Seq<char>, Pointer> {
    match c {
        CommandView::Put { key, .. } => dir.insert(key, p),
        CommandView::Remove { key } => dir.remove(key),
    }
}

/// The directory `dir` after `records`, which lie in segment `generation`,
/// have been replayed in order.
pub open spec fn table_index(
    dir: Map<Seq<char>, Pointer>,
    generation: u64,
    records: Seq<RecordView>,
) -> Map<Seq<char>, Pointer>
    decreases records.len(),
{
    if records.len() == 0 {
        dir
    } else {
        apply_pointer(
            table_index(dir, generation, records.drop_last()),
            records.last().command,
            pointer_of(generation, records.last()),
        )
    }
}

/// The directory that belongs to the log `tabs`: every table replayed in
/// order into an empty directory.
pub open spec fn log_index(tabs: Seq<TableView>) -> Map<Seq<char>, Pointer>
    decreases tabs.len(),
{
    if tabs.len() == 0 {
        Map::empty()
    } else {
        table_index(log_index(tabs.drop_last()), tabs.last().generation, tabs.last().records)
    }
}

/// The mapping from key to value that the log `tabs` holds.
pub open spec fn log_mapping(tabs: Seq<TableView>) -> Map<Seq<char>, Seq<char>> {
    replay_spec(log_history(tabs))
}

/// Record `j` of table `i` of `tabs` lies where `p` points and carries `c`.
pub open spec fn locates_at(tabs: Seq<TableView>, p: Pointer, c: CommandView, i: int, j: int) -> bool {
    &&& 0 <= i < tabs.len()
    &&& 0 <= j < tabs[i].records.len()
    &&& tabs[i].generation == p.generation
    &&& tabs[i].records[j] == (RecordView { command: c, offset: p.offset, length: p.length })
}

/// `p` points at a record of `tabs` that carries `c`.
pub open spec fn locates(tabs: Seq<TableView>, p: Pointer, c: CommandView) -> bool {
    exists|i: int, j: int| locates_at(tabs, p, c, i, j)
}

/// The directory `dir` has exactly the live keys of `tabs`, and each of its
/// pointers is at a `Put` record with that key and the key's live value.
pub open spec fn tracks(tabs: Seq<TableView>, dir: Map<Seq<char>, Pointer>) -> bool {
    &&& dir.dom() == log_mapping(tabs).dom()
    &&& forall|k: Seq<char>| #[trigger]
        dir.contains_key(k) ==> locates(
            tabs,
            dir[k],
            CommandView::Put { key: k, value: log_mapping(tabs)[k] },
        )
}

/// `tabs` with the record `r` added to its last table.
pub open spec fn append_record(tabs: Seq<TableView>, r: RecordView) -> Seq<TableView>
    recommends
        tabs.len() > 0,
{
    tabs.drop_last().push(
        TableView { generation: tabs.last().generation, records: tabs.last().records.push(r) },
    )
}

/// A new table without records changes neither history nor directory.
pub proof fn lemma_push_empty_table(tabs: Seq<TableView>, generation: u64)
    ensures
        ({
            let tabs2 = tabs.push(TableView { generation, records: Seq::empty() });
            &&& log_history(tabs2) == log_history(tabs)
            &&& log_index(tabs2) == log_index(tabs)
            &&& tracks(tabs, log_index(tabs)) ==> tracks(tabs2, log_index(tabs2))
        }),
{
    let tabs2 = tabs.push(TableView { generation, records: Seq::empty() });
    assert(tabs2.drop_last() =~= tabs);
    assert(tabs2.last().records.map_values(|r: RecordView| r.command) =~= Seq::<
        CommandView,
    >::empty());
    assert(log_history(tabs2) =~= log_history(tabs));
    if tracks(tabs, log_index(tabs)) {
        let dir = log_index(tabs);
        assert forall|k: Seq<char>| #[trigger] dir.contains_key(k) implies locates(
            tabs2,
            dir[k],
            CommandView::Put { key: k, value: log_mapping(tabs2)[k] },
        ) by {
            let ck = CommandView::Put { key: k, value: log_mapping(tabs)[k] };
            let (i, j) = choose|i: int, j: int| locates_at(tabs, dir[k], ck, i, j);
            assert(tabs2[i] == tabs[i]);
            assert(locates_at(tabs2, dir[k], ck, i, j));
        }
    }
}

/// A record at the end of the active table: the history has one more
/// command, the mapping and the directory take one more step, and a
/// directory that tracked the log still tracks it.
pub proof fn lemma_append_record(tabs: Seq<TableView>, r: RecordView)
    requires
        tabs.len() > 0,
    ensures
        ({
            let tabs2 = append_record(tabs, r);
            let p = pointer_of(tabs.last().generation, r);
            &&& log_history(tabs2) == log_history(tabs).push(r.command)
            &&& log_mapping(tabs2) == r.command.apply(log_mapping(tabs))
            &&& log_index(tabs2) == apply_pointer(log_index(tabs), r.command, p)
            &&& tracks(tabs, log_index(tabs)) ==> tracks(tabs2, log_index(tabs2))
        }),
{
    let tabs2 = append_record(tabs, r);
    let last = tabs.last();
    let n = tabs.len() - 1;
    let c = r.command;
    let p = pointer_of(last.generation, r);
    let h = log_history(tabs);
    assert(tabs2.drop_last() =~= tabs.drop_last());
    assert(tabs2.last().records == last.records.push(r));
    assert(last.records.push(r).map_values(|r: RecordView| r.command) =~= last.records.map_values(
        |r: RecordView| r.command,
    ).push(c));
    assert(log_history(tabs2) =~= h.push(c));
    assert(h.push(c).drop_last() =~= h);
    assert(last.records.push(r).drop_last() =~= last.records);
    assert(log_index(tabs2) == apply_pointer(log_index(tabs), c, p));
    if tracks(tabs, log_index(tabs)) {
        let dir = log_index(tabs);
        let dir2 = log_index(tabs2);
        let v = log_mapping(tabs);
        let v2 = log_mapping(tabs2);
        assert(dir2.dom() =~= v2.dom());
        assert forall|k: Seq<char>| #[trigger] dir2.contains_key(k) implies locates(
            tabs2,
            dir2[k],
            CommandView::Put { key: k, value: v2[k] },
        ) by {
            if k == c.key() {
                assert(locates_at(tabs2, p, c, n, last.records.len() as int));
            } else {
                let ck = CommandView::Put { key: k, value: v[k] };
                assert(dir.contains_key(k));
                let (i, j) = choose|i: int, j: int| locates_at(tabs, dir[k], ck, i, j);
                if i == n {
                    assert(tabs2[i].records[j] == tabs[i].records[j]);
                } else {
                    assert(tabs2[i] == tabs[i]);
                }
                assert(locates_at(tabs2, dir[k], ck, i, j));
            }
        }
    }
}

/// The directory that belongs to a log tracks the log: it has the log's
/// live keys, and each pointer is at a `Put` record with the live value.
pub proof fn lemma_index_tracks(tabs: Seq<TableView>)
    ensures
        tracks(tabs, log_index(tabs)),
    decreases tabs.len(), (if tabs.len() > 0 {
        tabs.last().records.len()
    } else {
        0
    }),
{
    if tabs.len() == 0 {
        assert(log_index(tabs).dom() =~= log_mapping(tabs).dom());
    } else {
        let last = tabs.last();
        let before = tabs.drop_last();
        if last.records.len() == 0 {
            lemma_index_tracks(before);
            lemma_push_empty_table(before, last.generation);
            assert(last.records =~= Seq::<RecordView>::empty());
            assert(before.push(TableView { generation: last.generation, records: Seq::empty() })
                =~= tabs);
        } else {
            let shorter = before.push(
                TableView { generation: last.generation, records: last.records.drop_last() },
            );
            assert(shorter.drop_last() =~= before);
            lemma_index_tracks(shorter);
            lemma_append_record(shorter, last.records.last());
            assert(last.records.drop_last().push(last.records.last()) =~= last.records);
            assert(append_record(shorter, last.records.last()) =~= tabs);
        }
    }
}

} // verus!
