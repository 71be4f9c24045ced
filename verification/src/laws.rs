//! Laws of the store, stated over histories and record tables and proved
//! once.

use crate::command::{replay_spec, CommandView};
use crate::keydir::lemma_bytes_lt_irreflexive;
use crate::kv::{compact_history, KvStore};
use crate::model::{
    lemma_index_tracks, log_history, log_index, log_mapping, tracks, RecordView, TableView,
};
use crate::naming::{decimal_digits, lemma_decimal_digits_value, segment_name_bytes};
use vstd::prelude::*;
use vstd::utf8::*;

verus! {

/// Every command of `h` is a `Put` that binds its key to the value that
/// `m` has for it.
pub open spec fn puts_of(h: Seq<CommandView>, m: Map<Seq<char>, Seq<char>>) -> bool {
    forall|i: int|
        0 <= i < h.len() ==> m.contains_key((#[trigger] h[i]).key()) && h[i] == (
        CommandView::Put { key: h[i].key(), value: m[h[i].key()] })
}

/// Replay fidelity. Whatever records a segment holds, replaying them gives
/// the mapping that their commands give when applied one by one to an
/// empty map, and the key directory built from them has exactly the keys
/// of that mapping, each pointing at a `Put` record that carries the key's
/// value.
pub proof fn lemma_replay_fidelity(records: Seq<RecordView>, generation: u64)
    ensures
        ({
            let tabs = seq![TableView { generation, records }];
            let commands = records.map_values(|r: RecordView| r.command);
            &&& log_history(tabs) == commands
            &&& log_mapping(tabs) == replay_spec(commands)
            &&& log_index(tabs).dom() == replay_spec(commands).dom()
            &&& tracks(tabs, log_index(tabs))
        }),
{
    let tabs = seq![TableView { generation, records }];
    let commands = records.map_values(|r: RecordView| r.command);
    assert(tabs.drop_last() =~= Seq::<TableView>::empty());
    assert(log_history(tabs.drop_last()) == Seq::<CommandView>::empty());
    assert(Seq::<CommandView>::empty() + commands =~= commands);
    lemma_index_tracks(tabs);
}

/// Last write wins. After two `Put`s of one key the key has the value of
/// the second, whatever came before, and the history holds both records.
pub proof fn lemma_last_write_wins(
    h: Seq<CommandView>,
    key: Seq<char>,
    first: Seq<char>,
    second: Seq<char>,
)
    ensures
        ({
            let h1 = h.push(CommandView::Put { key, value: first });
            let h2 = h1.push(CommandView::Put { key, value: second });
            &&& replay_spec(h2).contains_key(key)
            &&& replay_spec(h2)[key] == second
            &&& replay_spec(h2) == replay_spec(h).insert(key, second)
            &&& h2.len() == h.len() + 2
            &&& h2[h.len() as int] == (CommandView::Put { key, value: first })
            &&& h2[h.len() as int + 1] == (CommandView::Put { key, value: second })
        }),
{
    let h1 = h.push(CommandView::Put { key, value: first });
    let h2 = h1.push(CommandView::Put { key, value: second });
    assert(h1.drop_last() =~= h);
    assert(h2.drop_last() =~= h1);
    assert(replay_spec(h1) == replay_spec(h).insert(key, first));
    assert(replay_spec(h2) == replay_spec(h1).insert(key, second));
    assert(replay_spec(h).insert(key, first).insert(key, second) =~= replay_spec(h).insert(
        key,
        second,
    ));
}

/// One more command on a history is one more step on the mapping.
pub proof fn lemma_replay_push(h: Seq<CommandView>, c: CommandView)
    ensures
        replay_spec(h.push(c)) == c.apply(replay_spec(h)),
{
    assert(h.push(c).drop_last() =~= h);
}

/// A store is what its records replay to: replaying the tables of a
/// well-formed store into an empty directory gives the store's directory,
/// replaying their commands gives its mapping, and each pointer of the
/// directory is at the `Put` record of its key's value. So a store that is
/// opened on a log which reads back as these tables holds what this store
/// holds.
pub proof fn lemma_store_is_replay_of_its_records(store: KvStore)
    requires
        store.wf(),
    ensures
        log_index(store.tables()) == store.directory(),
        replay_spec(log_history(store.tables())) == store@,
        store.directory().dom() == store@.dom(),
        tracks(store.tables(), store.directory()),
{
    store.lemma_wf();
}

/// Replaying `Put`s that agree with a mapping, after a history that
/// already replays to that mapping, changes nothing.
pub proof fn lemma_replay_puts(
    h: Seq<CommandView>,
    puts: Seq<CommandView>,
    m: Map<Seq<char>, Seq<char>>,
)
    requires
        replay_spec(h) == m,
        puts_of(puts, m),
    ensures
        replay_spec(h + puts) == m,
    decreases puts.len(),
{
    if puts.len() == 0 {
        assert(h + puts =~= h);
    } else {
        let earlier = puts.drop_last();
        let last = puts.last();
        assert(puts_of(earlier, m)) by {
            assert forall|i: int| 0 <= i < earlier.len() implies m.contains_key(
                (#[trigger] earlier[i]).key(),
            ) && earlier[i] == (CommandView::Put {
                key: earlier[i].key(),
                value: m[earlier[i].key()],
            }) by {
                assert(earlier[i] == puts[i]);
            }
        }
        lemma_replay_puts(h, earlier, m);
        assert((h + puts).drop_last() =~= h + earlier);
        assert(m.insert(last.key(), m[last.key()]) =~= m);
    }
}

/// The command at position `i` of `h` is about the key `k`.
pub open spec fn about_at(h: Seq<CommandView>, k: Seq<char>, i: int) -> bool {
    0 <= i < h.len() && h[i].key() == k
}

/// Some command of `h` is about the key `k`.
pub open spec fn about(h: Seq<CommandView>, k: Seq<char>) -> bool {
    exists|i: int| about_at(h, k, i)
}

/// Replaying `Put`s that agree with a mapping binds exactly their keys,
/// each to the value that the mapping has for it.
pub proof fn lemma_replay_of_puts(puts: Seq<CommandView>, m: Map<Seq<char>, Seq<char>>)
    requires
        puts_of(puts, m),
    ensures
        forall|k: Seq<char>| #[trigger] replay_spec(puts).contains_key(k) <==> about(puts, k),
        forall|k: Seq<char>| #[trigger]
            replay_spec(puts).contains_key(k) ==> replay_spec(puts)[k] == m[k],
    decreases puts.len(),
{
    if puts.len() == 0 {
        assert forall|k: Seq<char>| !about(puts, k) by {
            if about(puts, k) {
                let i = choose|i: int| about_at(puts, k, i);
                assert(about_at(puts, k, i));
            }
        }
    } else {
        let earlier = puts.drop_last();
        let last = puts.last();
        assert(puts_of(earlier, m)) by {
            assert forall|i: int| 0 <= i < earlier.len() implies m.contains_key(
                (#[trigger] earlier[i]).key(),
            ) && earlier[i] == (CommandView::Put {
                key: earlier[i].key(),
                value: m[earlier[i].key()],
            }) by {
                assert(earlier[i] == puts[i]);
            }
        }
        lemma_replay_of_puts(earlier, m);
        assert(puts[puts.len() - 1] == last);
        assert(replay_spec(puts) == replay_spec(earlier).insert(last.key(), m[last.key()]));
        assert forall|k: Seq<char>| #[trigger]
            replay_spec(puts).contains_key(k) <==> about(puts, k) by {
            if about(puts, k) {
                let i = choose|i: int| about_at(puts, k, i);
                assert(about_at(puts, k, i));
                if i < earlier.len() {
                    assert(about_at(earlier, k, i));
                }
            }
            if k == last.key() {
                assert(about_at(puts, k, puts.len() - 1));
            }
            if about(earlier, k) {
                let i = choose|i: int| about_at(earlier, k, i);
                assert(about_at(earlier, k, i));
                assert(about_at(puts, k, i));
            }
        }
    }
}

/// A compact history of a mapping replays to that mapping, and no key
/// occurs in it twice.
pub proof fn lemma_compact_history_replays(h: Seq<CommandView>, m: Map<Seq<char>, Seq<char>>)
    requires
        compact_history(h, m),
    ensures
        replay_spec(h) == m,
        forall|i: int, j: int|
            0 <= i < h.len() && 0 <= j < h.len() && (#[trigger] h[i]).key() == (
            #[trigger] h[j]).key() ==> i == j,
{
    lemma_replay_of_puts(h, m);
    assert forall|k: Seq<char>| replay_spec(h).contains_key(k) == m.contains_key(k) by {
        if replay_spec(h).contains_key(k) {
            let i = choose|i: int| about_at(h, k, i);
            assert(about_at(h, k, i));
            assert(m.contains_key(h[i].key()));
        }
        if m.contains_key(k) {
            let i = choose|i: int| 0 <= i < h.len() && (#[trigger] h[i]).key() == k;
            assert(about_at(h, k, i));
        }
    }
    assert(replay_spec(h) =~= m);
    assert forall|i: int, j: int|
        0 <= i < h.len() && 0 <= j < h.len() && (#[trigger] h[i]).key() == (
        #[trigger] h[j]).key() implies i == j by {
        lemma_bytes_lt_irreflexive(encode_utf8(h[i].key()));
    }
}

/// Compaction is safe to interrupt. Where the fresh segment of a
/// compaction is complete, the log replays to the same mapping whether
/// the stale segments are still in front of it or already gone.
pub proof fn lemma_stale_segments_harmless(tabs: Seq<TableView>, fresh: TableView)
    requires
        compact_history(fresh.records.map_values(|r: RecordView| r.command), log_mapping(tabs)),
    ensures
        log_mapping(tabs.push(fresh)) == log_mapping(tabs),
        log_mapping(seq![fresh]) == log_mapping(tabs),
{
    let h = log_history(tabs);
    let hc = fresh.records.map_values(|r: RecordView| r.command);
    let m = log_mapping(tabs);
    assert(tabs.push(fresh).drop_last() =~= tabs);
    lemma_replay_puts(h, hc, m);
    assert(seq![fresh].drop_last() =~= Seq::<TableView>::empty());
    assert(log_history(seq![fresh].drop_last()) == Seq::<CommandView>::empty());
    assert(Seq::<CommandView>::empty() + hc =~= hc);
    lemma_compact_history_replays(hc, m);
}

/// Segment files are told apart by name: two generations have two file
/// names.
pub proof fn lemma_segment_names_differ(a: u64, b: u64)
    requires
        segment_name_bytes(a) == segment_name_bytes(b),
    ensures
        a == b,
{
    let da = decimal_digits(a as nat);
    let db = decimal_digits(b as nat);
    lemma_decimal_digits_value(a as nat);
    lemma_decimal_digits_value(b as nat);
    assert(segment_name_bytes(a).len() == da.len() + 4);
    assert(segment_name_bytes(b).len() == db.len() + 4);
    assert(da =~= segment_name_bytes(a).subrange(0, da.len() as int));
    assert(db =~= segment_name_bytes(b).subrange(0, db.len() as int));
}

} // verus!
