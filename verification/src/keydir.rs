//! The key directory: an ordered map from each live key to the pointer of
//! its latest record.
//!
//! Entries are kept in a vector, strictly increasing in the byte order of
//! their keys, so that lookup is a binary search and iteration is in key
//! order, the same on every run.

use vstd::prelude::*;
use vstd::string::*;
use vstd::utf8::*;

verus! {

/// Locates one record: the segment that holds it, where it starts in that
/// segment, and how many bytes it occupies.
#[derive(Debug, Clone, Copy, PartialEq, Eq, Structural)]
pub struct Pointer {
    pub generation: u64,
    pub offset: usize,
    pub length: usize,
}

/// How one byte string stands to another in lexicographic order.
#[derive(Debug, Clone, Copy, PartialEq, Eq, Structural)]
pub enum KeyOrder {
    Before,
    Same,
    After,
}

/// `a` and `b` agree on their first `i` bytes, and there `a` ends while `b`
/// goes on, or `a` holds the smaller byte.
pub open spec fn precedes_at(a: Seq<u8>, b: Seq<u8>, i: int) -> bool {
    &&& 0 <= i <= a.len()
    &&& i <= b.len()
    &&& forall|j: int| 0 <= j < i ==> a[j] == b[j]
    &&& if i == a.len() {
        i < b.len()
    } else {
        i < b.len() && a[i] < b[i]
    }
}

/// `a` comes strictly before `b` in lexicographic byte order.
pub open spec fn bytes_lt(a: Seq<u8>, b: Seq<u8>) -> bool {
    exists|i: int| precedes_at(a, b, i)
}

/// No byte string comes before itself.
pub proof fn lemma_bytes_lt_irreflexive(a: Seq<u8>)
    ensures
        !bytes_lt(a, a),
{
}

/// The byte order is transitive.
pub proof fn lemma_bytes_lt_transitive(a: Seq<u8>, b: Seq<u8>, c: Seq<u8>)
    requires
        bytes_lt(a, b),
        bytes_lt(b, c),
    ensures
        bytes_lt(a, c),
{
    let i = choose|i: int| precedes_at(a, b, i);
    let j = choose|j: int| precedes_at(b, c, j);
    let m = if i <= j {
        i
    } else {
        j
    };
    assert(precedes_at(a, c, m));
}

/// Compares two byte strings lexicographically.
pub fn compare_bytes(a: &[u8], b: &[u8]) -> (r: KeyOrder)
    ensures
        match r {
            KeyOrder::Before => bytes_lt(a@, b@),
            KeyOrder::Same => a@ == b@,
            KeyOrder::After => bytes_lt(b@, a@),
        },
{
    let mut i: usize = 0;
    while i < a.len() && i < b.len()
        invariant
            i <= a@.len(),
            i <= b@.len(),
            forall|j: int| 0 <= j < i ==> a@[j] == b@[j],
        decreases a@.len() - i,
    {
        if a[i] < b[i] {
            assert(precedes_at(a@, b@, i as int));
            return KeyOrder::Before;
        }
        if a[i] > b[i] {
            assert(precedes_at(b@, a@, i as int));
            return KeyOrder::After;
        }
        i += 1;
    }
    if a.len() < b.len() {
        assert(precedes_at(a@, b@, i as int));
        KeyOrder::Before
    } else if a.len() > b.len() {
        assert(precedes_at(b@, a@, i as int));
        KeyOrder::After
    } else {
        assert(a@ =~= b@);
        KeyOrder::Same
    }
}

/// The entries of a directory as mathematics: key and pointer, in order.
pub type Entries = Seq<(Seq<char>, Pointer)>;

/// The keys of `s` strictly increase in the byte order of their UTF-8 form.
pub open spec fn sorted(s: Entries) -> bool {
    forall|i: int, j: int|
        0 <= i < j < s.len() ==> bytes_lt(
            encode_utf8(#[trigger] s[i].0),
            encode_utf8(#[trigger] s[j].0),
        )
}

/// Some entry of `s` has the key `k`, and `i` is its position.
pub open spec fn key_at(s: Entries, k: Seq<char>, i: int) -> bool {
    0 <= i < s.len() && s[i].0 == k
}

/// Some entry of `s` has the key `k`.
pub open spec fn has_key(s: Entries, k: Seq<char>) -> bool {
    exists|i: int| key_at(s, k, i)
}

/// The position of the entry with key `k`, where there is one.
pub open spec fn position_of(s: Entries, k: Seq<char>) -> int {
    choose|i: int| key_at(s, k, i)
}

/// The map that the entries `s` stand for.
pub open spec fn entries_map(s: Entries) -> Map<Seq<char>, Pointer> {
    Map::new(|k: Seq<char>| has_key(s, k), |k: Seq<char>| s[position_of(s, k)].1)
}

/// The sum of the record lengths that the pointers of `s` give.
pub open spec fn total_length(s: Entries) -> nat
    decreases s.len(),
{
    if s.len() == 0 {
        0
    } else {
        total_length(s.drop_last()) + s.last().1.length as nat
    }
}

/// Keys with the same UTF-8 bytes are the same key.
pub proof fn lemma_key_bytes_injective(a: Seq<char>, b: Seq<char>)
    requires
        encode_utf8(a) == encode_utf8(b),
    ensures
        a == b,
{
    encode_utf8_decode_utf8(a);
    encode_utf8_decode_utf8(b);
}

/// In sorted entries no key occurs twice.
pub proof fn lemma_sorted_distinct(s: Entries, i: int, j: int)
    requires
        sorted(s),
        0 <= i < s.len(),
        0 <= j < s.len(),
        s[i].0 == s[j].0,
    ensures
        i == j,
{
    lemma_bytes_lt_irreflexive(encode_utf8(s[i].0));
}

/// In sorted entries the map binds each entry's key to that entry's pointer.
pub proof fn lemma_map_at(s: Entries, i: int)
    requires
        sorted(s),
        0 <= i < s.len(),
    ensures
        entries_map(s).contains_key(s[i].0),
        entries_map(s)[s[i].0] == s[i].1,
{
    let k = s[i].0;
    assert(key_at(s, k, i));
    lemma_sorted_distinct(s, i, position_of(s, k));
}

/// Inserting an entry at position `i` adds its length to the total.
pub proof fn lemma_total_length_insert(s: Entries, i: int, e: (Seq<char>, Pointer))
    requires
        0 <= i <= s.len(),
    ensures
        total_length(s.insert(i, e)) == total_length(s) + e.1.length,
    decreases s.len(),
{
    let t = s.insert(i, e);
    if i == s.len() {
        assert(t.drop_last() =~= s);
    } else {
        assert(t.drop_last() =~= s.drop_last().insert(i, e));
        lemma_total_length_insert(s.drop_last(), i, e);
    }
}

/// Removing the entry at position `i` takes its length off the total.
pub proof fn lemma_total_length_remove(s: Entries, i: int)
    requires
        0 <= i < s.len(),
    ensures
        total_length(s.remove(i)) == total_length(s) - s[i].1.length,
    decreases s.len(),
{
    let t = s.remove(i);
    if i == s.len() - 1 {
        assert(t =~= s.drop_last());
    } else {
        assert(t.drop_last() =~= s.drop_last().remove(i));
        lemma_total_length_remove(s.drop_last(), i);
    }
}

/// Replacing the entry at position `i` swaps its length for the new one.
pub proof fn lemma_total_length_update(s: Entries, i: int, e: (Seq<char>, Pointer))
    requires
        0 <= i < s.len(),
    ensures
        total_length(s.update(i, e)) == total_length(s) - s[i].1.length + e.1.length,
    decreases s.len(),
{
    let t = s.update(i, e);
    if i == s.len() - 1 {
        assert(t.drop_last() =~= s.drop_last());
    } else {
        assert(t.drop_last() =~= s.drop_last().update(i, e));
        lemma_total_length_update(s.drop_last(), i, e);
    }
}

/// One more entry taken from the front adds its length to the total.
pub proof fn lemma_total_length_take(s: Entries, i: int)
    requires
        0 <= i < s.len(),
    ensures
        total_length(s.take(i + 1)) == total_length(s.take(i)) + s[i].1.length,
{
    assert(s.take(i + 1).drop_last() =~= s.take(i));
}

/// The keys among the first `i + 1` entries are those among the first `i`
/// and the key of entry `i`.
pub proof fn lemma_has_key_take(s: Entries, i: int, k: Seq<char>)
    requires
        0 <= i < s.len(),
    ensures
        has_key(s.take(i + 1), k) <==> has_key(s.take(i), k) || s[i].0 == k,
{
    if has_key(s.take(i + 1), k) {
        let j = position_of(s.take(i + 1), k);
        assert(key_at(s.take(i + 1), k, j));
        if j < i {
            assert(key_at(s.take(i), k, j));
        }
    }
    if has_key(s.take(i), k) {
        let j = position_of(s.take(i), k);
        assert(key_at(s.take(i), k, j));
        assert(key_at(s.take(i + 1), k, j));
    }
    if s[i].0 == k {
        assert(key_at(s.take(i + 1), k, i));
    }
}

/// Inserting a new key at its place in the order keeps the entries sorted
/// and binds the key in the map.
pub proof fn lemma_insert_entry(s: Entries, i: int, k: Seq<char>, p: Pointer)
    requires
        sorted(s),
        0 <= i <= s.len(),
        forall|j: int| 0 <= j < i ==> bytes_lt(encode_utf8(#[trigger] s[j].0), encode_utf8(k)),
        forall|j: int|
            i <= j < s.len() ==> bytes_lt(encode_utf8(k), encode_utf8(#[trigger] s[j].0)),
    ensures
        sorted(s.insert(i, (k, p))),
        !has_key(s, k),
        entries_map(s.insert(i, (k, p))) == entries_map(s).insert(k, p),
{
    let t = s.insert(i, (k, p));
    assert(sorted(t)) by {
        assert forall|a: int, b: int| 0 <= a < b < t.len() implies bytes_lt(
            encode_utf8(#[trigger] t[a].0),
            encode_utf8(#[trigger] t[b].0),
        ) by {
            let sa = if a < i {
                a
            } else {
                a - 1
            };
            let sb = if b < i {
                b
            } else {
                b - 1
            };
            if a != i && b != i {
                assert(t[a] == s[sa] && t[b] == s[sb]);
            } else if a == i {
                assert(t[b] == s[sb]);
            } else {
                assert(t[a] == s[sa]);
            }
        }
    }
    assert(!has_key(s, k)) by {
        if has_key(s, k) {
            let j = position_of(s, k);
            assert(key_at(s, k, j));
            lemma_bytes_lt_irreflexive(encode_utf8(k));
        }
    }
    let m1 = entries_map(t);
    let m2 = entries_map(s).insert(k, p);
    assert forall|q: Seq<char>|
        #![trigger m1.dom().contains(q)]
        #![trigger m2.dom().contains(q)]
        #![trigger m1[q]]
        #![trigger m2[q]]
        m1.dom().contains(q) == m2.dom().contains(q) && (m1.dom().contains(q) ==> m1[q]
            == m2[q]) by {
        if q == k {
            assert(t[i] == (k, p));
            lemma_map_at(t, i);
        } else {
            if has_key(s, q) {
                let j = position_of(s, q);
                assert(key_at(s, q, j));
                let tj = if j < i {
                    j
                } else {
                    j + 1
                };
                assert(t[tj] == s[j]);
                lemma_map_at(t, tj);
                lemma_map_at(s, j);
            }
            if has_key(t, q) {
                let j = position_of(t, q);
                assert(key_at(t, q, j));
                let sj = if j < i {
                    j
                } else {
                    j - 1
                };
                assert(t[j] == s[sj]);
                assert(key_at(s, q, sj));
            }
        }
    }
    assert(m1 =~= m2);
}

/// Giving the entry at position `i` a new pointer keeps the entries sorted
/// and rebinds its key in the map.
pub proof fn lemma_update_entry(s: Entries, i: int, p: Pointer)
    requires
        sorted(s),
        0 <= i < s.len(),
    ensures
        sorted(s.update(i, (s[i].0, p))),
        entries_map(s.update(i, (s[i].0, p))) == entries_map(s).insert(s[i].0, p),
{
    let k = s[i].0;
    let t = s.update(i, (k, p));
    assert(sorted(t)) by {
        assert forall|a: int, b: int| 0 <= a < b < t.len() implies bytes_lt(
            encode_utf8(#[trigger] t[a].0),
            encode_utf8(#[trigger] t[b].0),
        ) by {
            assert(t[a].0 == s[a].0 && t[b].0 == s[b].0);
        }
    }
    let m1 = entries_map(t);
    let m2 = entries_map(s).insert(k, p);
    assert forall|q: Seq<char>|
        #![trigger m1.dom().contains(q)]
        #![trigger m2.dom().contains(q)]
        #![trigger m1[q]]
        #![trigger m2[q]]
        m1.dom().contains(q) == m2.dom().contains(q) && (m1.dom().contains(q) ==> m1[q]
            == m2[q]) by {
        if q == k {
            lemma_map_at(t, i);
        } else {
            if has_key(s, q) {
                let j = position_of(s, q);
                assert(key_at(s, q, j));
                assert(t[j] == s[j]);
                lemma_map_at(t, j);
                lemma_map_at(s, j);
            }
            if has_key(t, q) {
                let j = position_of(t, q);
                assert(key_at(t, q, j));
                assert(key_at(s, q, j));
            }
        }
    }
    assert(m1 =~= m2);
}

/// Removing the entry at position `i` keeps the entries sorted and unbinds
/// its key in the map.
pub proof fn lemma_remove_entry(s: Entries, i: int)
    requires
        sorted(s),
        0 <= i < s.len(),
    ensures
        sorted(s.remove(i)),
        entries_map(s.remove(i)) == entries_map(s).remove(s[i].0),
{
    let k = s[i].0;
    let t = s.remove(i);
    assert(sorted(t)) by {
        assert forall|a: int, b: int| 0 <= a < b < t.len() implies bytes_lt(
            encode_utf8(#[trigger] t[a].0),
            encode_utf8(#[trigger] t[b].0),
        ) by {
            let sa = if a < i {
                a
            } else {
                a + 1
            };
            let sb = if b < i {
                b
            } else {
                b + 1
            };
            assert(t[a] == s[sa] && t[b] == s[sb]);
        }
    }
    let m1 = entries_map(t);
    let m2 = entries_map(s).remove(k);
    assert forall|q: Seq<char>|
        #![trigger m1.dom().contains(q)]
        #![trigger m2.dom().contains(q)]
        #![trigger m1[q]]
        #![trigger m2[q]]
        m1.dom().contains(q) == m2.dom().contains(q) && (m1.dom().contains(q) ==> m1[q]
            == m2[q]) by {
        if has_key(t, q) {
            let j = position_of(t, q);
            assert(key_at(t, q, j));
            let sj = if j < i {
                j
            } else {
                j + 1
            };
            assert(t[j] == s[sj]);
            assert(key_at(s, q, sj));
            if q == k {
                lemma_sorted_distinct(s, sj, i);
            }
            lemma_map_at(t, j);
            lemma_map_at(s, sj);
        }
        if q != k && has_key(s, q) {
            let j = position_of(s, q);
            assert(key_at(s, q, j));
            let tj = if j < i {
                j
            } else {
                j - 1
            };
            assert(t[tj] == s[j]);
            assert(key_at(t, q, tj));
        }
    }
    assert(m1 =~= m2);
}

/// Sorted entries stand for a finite map with one binding per entry.
pub proof fn lemma_entries_map_len(s: Entries)
    requires
        sorted(s),
    ensures
        entries_map(s).dom().finite(),
        entries_map(s).dom().len() == s.len(),
    decreases s.len(),
{
    if s.len() == 0 {
        assert(entries_map(s).dom() =~= Set::<Seq<char>>::empty()) by {
            assert forall|q: Seq<char>| !has_key(s, q) by {
                if has_key(s, q) {
                    assert(key_at(s, q, position_of(s, q)));
                }
            }
        }
    } else {
        let init = s.drop_last();
        let last = s.last();
        let n = init.len() as int;
        assert(sorted(init)) by {
            assert forall|a: int, b: int| 0 <= a < b < init.len() implies bytes_lt(
                encode_utf8(#[trigger] init[a].0),
                encode_utf8(#[trigger] init[b].0),
            ) by {
                assert(init[a] == s[a] && init[b] == s[b]);
            }
        }
        assert forall|j: int| 0 <= j < n implies bytes_lt(
            encode_utf8(#[trigger] init[j].0),
            encode_utf8(last.0),
        ) by {
            assert(init[j] == s[j]);
            assert(last == s[n]);
        }
        lemma_insert_entry(init, n, last.0, last.1);
        assert(init.insert(n, (last.0, last.1)) =~= s);
        lemma_entries_map_len(init);
        assert(entries_map(s).dom() =~= entries_map(init).dom().insert(last.0));
        assert(!entries_map(init).dom().contains(last.0));
    }
}

struct Entry {
    key: String,
    pointer: Pointer,
}

/// An ordered map from key to pointer.
pub struct KeyDir {
    entries: Vec<Entry>,
}

impl View for KeyDir {
    type V = Map<Seq<char>, Pointer>;

    /// The map from each key to its pointer.
    open spec fn view(&self) -> Map<Seq<char>, Pointer> {
        entries_map(self.entries())
    }
}

impl KeyDir {
    /// The entries in key order.
    pub closed spec fn entries(&self) -> Entries {
        Seq::new(
            self.entries@.len(),
            |i: int| (self.entries@[i].key@, self.entries@[i].pointer),
        )
    }

    /// The directory's invariant: entries strictly increase in key order.
    pub open spec fn wf(&self) -> bool {
        sorted(self.entries())
    }

    /// The number of log bytes that the directory's pointers cover.
    pub open spec fn pointed_bytes(&self) -> nat {
        total_length(self.entries())
    }

    /// An empty directory.
    pub fn new() -> (dir: KeyDir)
        ensures
            dir.wf(),
            dir.entries() == Seq::<(Seq<char>, Pointer)>::empty(),
            dir@ == Map::<Seq<char>, Pointer>::empty(),
            dir.pointed_bytes() == 0,
    {
        let dir = KeyDir { entries: Vec::new() };
        assert(dir.entries() =~= Seq::<(Seq<char>, Pointer)>::empty());
        assert(dir@ =~= Map::<Seq<char>, Pointer>::empty()) by {
            assert forall|q: Seq<char>| !has_key(dir.entries(), q) by {
                if has_key(dir.entries(), q) {
                    assert(key_at(dir.entries(), q, position_of(dir.entries(), q)));
                }
            }
        }
        dir
    }

    /// The number of keys in the directory.
    pub fn len(&self) -> (n: usize)
        ensures
            n == self.entries().len(),
            self.wf() ==> n == self@.dom().len(),
    {
        proof {
            if self.wf() {
                lemma_entries_map_len(self.entries());
            }
        }
        self.entries.len()
    }

    /// Where `key` is, or where it would go: the position of the first
    /// entry whose key does not come before `key`, and whether that entry
    /// has the key itself.
    fn search(&self, key: &[u8]) -> (r: (usize, bool))
        requires
            self.wf(),
        ensures
            r.0 <= self.entries().len(),
            r.1 ==> r.0 < self.entries().len() && encode_utf8(self.entries()[r.0 as int].0)
                == key@,
            forall|j: int|
                0 <= j < r.0 ==> bytes_lt(encode_utf8(#[trigger] self.entries()[j].0), key@),
            !r.1 ==> forall|j: int|
                r.0 <= j < self.entries().len() ==> bytes_lt(
                    key@,
                    encode_utf8(#[trigger] self.entries()[j].0),
                ),
    {
        let ghost s = self.entries();
        let mut lo: usize = 0;
        let mut hi: usize = self.entries.len();
        while lo < hi
            invariant
                s == self.entries(),
                sorted(s),
                lo <= hi <= s.len(),
                s.len() == self.entries@.len(),
                forall|j: int| 0 <= j < lo ==> bytes_lt(encode_utf8(#[trigger] s[j].0), key@),
                forall|j: int| hi <= j < s.len() ==> bytes_lt(key@, encode_utf8(#[trigger] s[j].0)),
            decreases hi - lo,
        {
            let mid = lo + (hi - lo) / 2;
            let here = self.entries[mid].key.as_str().as_bytes();
            assert(here@ == encode_utf8(s[mid as int].0));
            match compare_bytes(here, key) {
                KeyOrder::Same => {
                    assert forall|j: int| 0 <= j < mid implies bytes_lt(
                        encode_utf8(#[trigger] s[j].0),
                        key@,
                    ) by {
                        assert(bytes_lt(encode_utf8(s[j].0), encode_utf8(s[mid as int].0)));
                    }
                    return (mid, true);
                },
                KeyOrder::Before => {
                    assert forall|j: int| 0 <= j < mid + 1 implies bytes_lt(
                        encode_utf8(#[trigger] s[j].0),
                        key@,
                    ) by {
                        if j < mid {
                            assert(bytes_lt(encode_utf8(s[j].0), encode_utf8(s[mid as int].0)));
                            lemma_bytes_lt_transitive(
                                encode_utf8(s[j].0),
                                encode_utf8(s[mid as int].0),
                                key@,
                            );
                        }
                    }
                    lo = mid + 1;
                },
                KeyOrder::After => {
                    assert forall|j: int| mid <= j < s.len() implies bytes_lt(
                        key@,
                        encode_utf8(#[trigger] s[j].0),
                    ) by {
                        if mid < j {
                            assert(bytes_lt(encode_utf8(s[mid as int].0), encode_utf8(s[j].0)));
                            lemma_bytes_lt_transitive(
                                key@,
                                encode_utf8(s[mid as int].0),
                                encode_utf8(s[j].0),
                            );
                        }
                    }
                    hi = mid;
                },
            }
        }
        (lo, false)
    }

    /// The pointer of `key`, if the key is in the directory.
    pub fn get(&self, key: &str) -> (r: Option<Pointer>)
        requires
            self.wf(),
        ensures
            match r {
                Some(p) => self@.contains_key(key@) && self@[key@] == p,
                None => !self@.contains_key(key@),
            },
    {
        let (i, found) = self.search(key.as_bytes());
        let ghost s = self.entries();
        if found {
            proof {
                lemma_key_bytes_injective(s[i as int].0, key@);
                lemma_map_at(s, i as int);
            }
            Some(self.entries[i].pointer)
        } else {
            proof {
                lemma_absent(s, i as int, key@);
            }
            None
        }
    }

    /// Whether `key` is in the directory.
    pub fn contains_key(&self, key: &str) -> (r: bool)
        requires
            self.wf(),
        ensures
            r == self@.contains_key(key@),
    {
        self.get(key).is_some()
    }

    /// Binds `key` to `pointer`, replacing any pointer it had.
    pub fn put(&mut self, key: String, pointer: Pointer)
        requires
            old(self).wf(),
        ensures
            final(self).wf(),
            final(self)@ == old(self)@.insert(key@, pointer),
            final(self).pointed_bytes() + (if old(self)@.contains_key(key@) {
                old(self)@[key@].length as int
            } else {
                0
            }) == old(self).pointed_bytes() + pointer.length,
    {
        let (i, found) = self.search(key.as_str().as_bytes());
        let ghost s = self.entries();
        if found {
            proof {
                lemma_key_bytes_injective(s[i as int].0, key@);
                lemma_map_at(s, i as int);
                lemma_update_entry(s, i as int, pointer);
                lemma_total_length_update(s, i as int, (key@, pointer));
            }
            self.entries.set(i, Entry { key, pointer });
            assert(self.entries() =~= s.update(i as int, (key@, pointer)));
        } else {
            proof {
                lemma_absent(s, i as int, key@);
                lemma_insert_entry(s, i as int, key@, pointer);
                lemma_total_length_insert(s, i as int, (key@, pointer));
            }
            self.entries.insert(i, Entry { key, pointer });
            assert(self.entries() =~= s.insert(i as int, (key@, pointer)));
        }
    }

    /// Drops `key` from the directory; says whether it was there.
    pub fn remove(&mut self, key: &str) -> (removed: bool)
        requires
            old(self).wf(),
        ensures
            final(self).wf(),
            removed == old(self)@.contains_key(key@),
            final(self)@ == old(self)@.remove(key@),
            final(self).pointed_bytes() + (if removed {
                old(self)@[key@].length as int
            } else {
                0
            }) == old(self).pointed_bytes(),
    {
        let (i, found) = self.search(key.as_bytes());
        let ghost s = self.entries();
        if found {
            proof {
                lemma_key_bytes_injective(s[i as int].0, key@);
                lemma_map_at(s, i as int);
                lemma_remove_entry(s, i as int);
                lemma_total_length_remove(s, i as int);
            }
            self.entries.remove(i);
            assert(self.entries() =~= s.remove(i as int));
            true
        } else {
            proof {
                lemma_absent(s, i as int, key@);
                assert(self@ =~= self@.remove(key@));
            }
            false
        }
    }

    /// The key of the entry at position `i` in key order.
    pub fn key_at(&self, i: usize) -> (key: &String)
        requires
            i < self.entries().len(),
        ensures
            key@ == self.entries()[i as int].0,
    {
        &self.entries[i].key
    }

    /// The pointer of the entry at position `i` in key order.
    pub fn pointer_at(&self, i: usize) -> (pointer: Pointer)
        requires
            i < self.entries().len(),
        ensures
            pointer == self.entries()[i as int].1,
    {
        self.entries[i].pointer
    }
}

/// A key that sorts strictly between the entries before position `i` and
/// those from `i` on is not among the entries.
proof fn lemma_absent(s: Entries, i: int, k: Seq<char>)
    requires
        0 <= i <= s.len(),
        forall|j: int| 0 <= j < i ==> bytes_lt(encode_utf8(#[trigger] s[j].0), encode_utf8(k)),
        forall|j: int|
            i <= j < s.len() ==> bytes_lt(encode_utf8(k), encode_utf8(#[trigger] s[j].0)),
    ensures
        !has_key(s, k),
        !entries_map(s).contains_key(k),
{
    if has_key(s, k) {
        let j = position_of(s, k);
        assert(key_at(s, k, j));
        lemma_bytes_lt_irreflexive(encode_utf8(k));
    }
}

} // verus!
