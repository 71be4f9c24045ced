//! The segment log: append-only byte buffers, one per generation.
//!
//! Generations strictly increase along the log. The last segment is the
//! active one, the only one that takes appends; the others are sealed.

use crate::codec::append_bytes;
use crate::error::{KvsError, Result};
use crate::keydir::Pointer;
use crate::naming::{segment_file_name, segment_name_bytes};
use vstd::prelude::*;
use vstd::slice::*;
use vstd::utf8::*;

verus! {

/// One segment: its generation and the bytes appended to it so far.
pub struct Segment {
    pub generation: u64,
    pub bytes: Vec<u8>,
}

/// The mathematical content of a [`Segment`].
pub struct SegmentView {
    pub generation: u64,
    pub bytes: Seq<u8>,
}

impl View for Segment {
    type V = SegmentView;

    open spec fn view(&self) -> SegmentView {
        SegmentView { generation: self.generation, bytes: self.bytes@ }
    }
}

/// Generations strictly increase along `segs`.
pub open spec fn generations_increase(segs: Seq<SegmentView>) -> bool {
    forall|i: int, j: int|
        0 <= i < j < segs.len() ==> (#[trigger] segs[i]).generation < (#[trigger] segs[j]).generation
}

/// The segment at position `i` of `segs` has generation `g`.
pub open spec fn generation_at(segs: Seq<SegmentView>, g: u64, i: int) -> bool {
    0 <= i < segs.len() && segs[i].generation == g
}

/// Some segment of `segs` has generation `g`.
pub open spec fn has_generation(segs: Seq<SegmentView>, g: u64) -> bool {
    exists|i: int| generation_at(segs, g, i)
}

/// The bytes of the segment with generation `g`, where there is one.
pub open spec fn bytes_of(segs: Seq<SegmentView>, g: u64) -> Seq<u8> {
    segs[choose|i: int| generation_at(segs, g, i)].bytes
}

/// No segment of `segs` is longer than a `usize` can say.
pub open spec fn sizes_fit(segs: Seq<SegmentView>) -> bool {
    forall|i: int| 0 <= i < segs.len() ==> (#[trigger] segs[i]).bytes.len() <= usize::MAX
}

/// The number of bytes in all segments together.
pub open spec fn total_bytes(segs: Seq<SegmentView>) -> nat
    decreases segs.len(),
{
    if segs.len() == 0 {
        0
    } else {
        total_bytes(segs.drop_last()) + segs.last().bytes.len()
    }
}

/// `segs`, or a log of one empty segment of generation 0 where `segs` is empty.
pub open spec fn with_active(segs: Seq<SegmentView>) -> Seq<SegmentView> {
    if segs.len() == 0 {
        seq![SegmentView { generation: 0, bytes: Seq::empty() }]
    } else {
        segs
    }
}

/// `segs` with `r` appended to its last segment.
pub open spec fn append_to_last(segs: Seq<SegmentView>, r: Seq<u8>) -> Seq<SegmentView>
    recommends
        segs.len() > 0,
{
    segs.drop_last().push(
        SegmentView { generation: segs.last().generation, bytes: segs.last().bytes + r },
    )
}

/// `pointer` names a segment of `segs` and a byte range inside it.
pub open spec fn in_bounds(segs: Seq<SegmentView>, pointer: Pointer) -> bool {
    has_generation(segs, pointer.generation) && pointer.offset + pointer.length <= bytes_of(
        segs,
        pointer.generation,
    ).len()
}

/// In a log with increasing generations a generation names one segment.
pub proof fn lemma_generation_unique(segs: Seq<SegmentView>, g: u64, i: int)
    requires
        generations_increase(segs),
        generation_at(segs, g, i),
    ensures
        has_generation(segs, g),
        bytes_of(segs, g) == segs[i].bytes,
{
    let j = choose|j: int| generation_at(segs, g, j);
    assert(i == j) by {
        if i < j {
            assert(segs[i].generation < segs[j].generation);
        } else if j < i {
            assert(segs[j].generation < segs[i].generation);
        }
    }
}

/// An append-only log of segments in generation order.
pub struct SegmentLog {
    segments: Vec<Segment>,
}

impl View for SegmentLog {
    type V = Seq<SegmentView>;

    /// The segments, oldest generation first.
    closed spec fn view(&self) -> Seq<SegmentView> {
        Seq::new(self.segments@.len(), |i: int| self.segments@[i]@)
    }
}

impl SegmentLog {
    /// The log's invariant: generations strictly increase.
    pub open spec fn wf(&self) -> bool {
        generations_increase(self@)
    }

    /// No segment of a log is longer than a `usize` can say.
    pub proof fn lemma_sizes_fit(&self)
        ensures
            sizes_fit(self@),
    {
        assert forall|i: int| 0 <= i < self@.len() implies (#[trigger] self@[i]).bytes.len()
            <= usize::MAX by {
            assert(self@[i].bytes == self.segments@[i].bytes@);
            assert(self.segments@[i].bytes@.len() == self.segments@[i].bytes.len());
        }
    }

    /// A log without segments.
    pub fn new() -> (log: SegmentLog)
        ensures
            log.wf(),
            log@ == Seq::<SegmentView>::empty(),
    {
        let log = SegmentLog { segments: Vec::new() };
        assert(log@ =~= Seq::<SegmentView>::empty());
        log
    }

    /// The number of segments.
    pub fn len(&self) -> (n: usize)
        ensures
            n == self@.len(),
    {
        self.segments.len()
    }

    /// The generation of the segment at position `i`, oldest first.
    pub fn generation_at(&self, i: usize) -> (g: u64)
        requires
            i < self@.len(),
        ensures
            g == self@[i as int].generation,
    {
        self.segments[i].generation
    }

    /// The bytes of the segment at position `i`, oldest first.
    pub fn bytes_at(&self, i: usize) -> (bytes: &Vec<u8>)
        requires
            i < self@.len(),
        ensures
            bytes@ == self@[i as int].bytes,
    {
        &self.segments[i].bytes
    }

    /// The generation of the active segment, if the log has any segment.
    pub fn active_generation(&self) -> (g: Option<u64>)
        ensures
            match g {
                Some(g) => self@.len() > 0 && g == self@.last().generation,
                None => self@.len() == 0,
            },
    {
        let n = self.segments.len();
        if n == 0 {
            None
        } else {
            Some(self.segments[n - 1].generation)
        }
    }

    /// The number of bytes in all segments together.
    pub fn total_len(&self) -> (n: u64)
        ensures
            n == total_bytes(self@) || (n == u64::MAX && total_bytes(self@) > u64::MAX),
    {
        let mut sum: u64 = 0;
        let mut i: usize = 0;
        let mut exact = true;
        assert(self@.take(0) =~= Seq::<SegmentView>::empty());
        while i < self.segments.len()
            invariant
                i <= self@.len(),
                self@.len() == self.segments@.len(),
                exact ==> sum == total_bytes(self@.take(i as int)),
                !exact ==> sum == u64::MAX && total_bytes(self@.take(i as int)) > u64::MAX,
            decreases self@.len() - i,
        {
            let n = self.segments[i].bytes.len() as u64;
            assert(self@.take(i + 1).drop_last() =~= self@.take(i as int));
            assert(self@.take(i + 1).last() == self@[i as int]);
            if exact && n <= u64::MAX - sum {
                sum = sum + n;
            } else {
                exact = false;
                sum = u64::MAX;
            }
            i += 1;
        }
        assert(self@.take(i as int) =~= self@);
        sum
    }

    /// The position of the segment with generation `generation`.
    fn find(&self, generation: u64) -> (r: Option<usize>)
        ensures
            match r {
                Some(i) => generation_at(self@, generation, i as int),
                None => !has_generation(self@, generation),
            },
    {
        let mut i: usize = 0;
        while i < self.segments.len()
            invariant
                i <= self@.len(),
                self@.len() == self.segments@.len(),
                forall|j: int| 0 <= j < i ==> !generation_at(self@, generation, j),
            decreases self@.len() - i,
        {
            if self.segments[i].generation == generation {
                return Some(i);
            }
            i += 1;
        }
        None
    }

    /// Adds a segment at its place in generation order. Returns `false`,
    /// and changes nothing, if the log has a segment of that generation.
    pub fn add_segment(&mut self, generation: u64, bytes: Vec<u8>) -> (added: bool)
        requires
            old(self).wf(),
        ensures
            final(self).wf(),
            added == !has_generation(old(self)@, generation),
            !added ==> final(self)@ == old(self)@,
            added ==> exists|pos: int|
                0 <= pos <= old(self)@.len() && final(self)@ == #[trigger] old(self)@.insert(
                    pos,
                    SegmentView { generation, bytes: bytes@ },
                ),
    {
        let ghost segs = self@;
        let mut pos: usize = self.segments.len();
        while pos > 0 && self.segments[pos - 1].generation >= generation
            invariant
                segs == self@,
                generations_increase(segs),
                pos <= segs.len(),
                segs.len() == self.segments@.len(),
                forall|j: int| pos <= j < segs.len() ==> (#[trigger] segs[j]).generation >= generation,
            decreases pos,
        {
            pos -= 1;
        }
        if pos < self.segments.len() && self.segments[pos].generation == generation {
            assert(generation_at(segs, generation, pos as int));
            return false;
        }
        let ghost seg = SegmentView { generation, bytes: bytes@ };
        assert forall|j: int| 0 <= j < pos implies (#[trigger] segs[j]).generation < generation by {
            assert(segs[pos - 1].generation < generation);
            if j < pos - 1 {
                assert(segs[j].generation < segs[pos - 1].generation);
            }
        }
        assert forall|j: int| pos <= j < segs.len() implies (#[trigger] segs[j]).generation
            > generation by {
            if pos < j {
                assert(segs[pos as int].generation < segs[j].generation);
            }
        }
        assert(!has_generation(segs, generation));
        self.segments.insert(pos, Segment { generation, bytes });
        assert(self@ =~= segs.insert(pos as int, seg));
        assert(generations_increase(self@)) by {
            let t = segs.insert(pos as int, seg);
            assert forall|a: int, b: int| 0 <= a < b < t.len() implies (#[trigger] t[a]).generation
                < (#[trigger] t[b]).generation by {
                let sa = if a < pos {
                    a
                } else {
                    a - 1
                };
                let sb = if b < pos {
                    b
                } else {
                    b - 1
                };
                if a != pos && b != pos {
                    assert(t[a] == segs[sa] && t[b] == segs[sb]);
                } else if a == pos {
                    assert(t[b] == segs[sb]);
                } else {
                    assert(t[a] == segs[sa]);
                }
            }
        }
        true
    }

    /// Appends `bytes` to the active segment and returns where they went.
    /// A log without segments first gets an empty segment of generation 0.
    pub fn append(&mut self, bytes: &[u8]) -> (pointer: Pointer)
        requires
            old(self).wf(),
        ensures
            final(self).wf(),
            final(self)@ == append_to_last(with_active(old(self)@), bytes@),
            pointer.generation == with_active(old(self)@).last().generation,
            pointer.offset == with_active(old(self)@).last().bytes.len(),
            pointer.length == bytes@.len(),
    {
        let ghost segs = with_active(self@);
        let mut active = match self.segments.pop() {
            Some(segment) => segment,
            None => Segment { generation: 0, bytes: Vec::new() },
        };
        assert(active@ == segs.last());
        assert(self@ =~= segs.drop_last());
        let offset = active.bytes.len();
        let pointer = Pointer { generation: active.generation, offset, length: bytes.len() };
        append_bytes(&mut active.bytes, bytes);
        self.segments.push(active);
        assert(self@ =~= append_to_last(segs, bytes@));
        assert(generations_increase(self@)) by {
            let t = self@;
            assert forall|a: int, b: int| 0 <= a < b < t.len() implies (#[trigger] t[a]).generation
                < (#[trigger] t[b]).generation by {
                assert(t[a].generation == segs[a].generation);
                assert(t[b].generation == segs[b].generation);
            }
        }
        pointer
    }

    /// The bytes that `pointer` locates.
    ///
    /// Fails with `FileNotFound`, naming the segment's file, when the log
    /// has no segment of the pointer's generation, and with `Io` when the
    /// pointer's range reaches beyond the end of its segment.
    pub fn read_at(&self, pointer: Pointer) -> (res: Result<&[u8]>)
        requires
            self.wf(),
        ensures
            match res {
                Ok(bytes) => in_bounds(self@, pointer) && bytes@ == bytes_of(
                    self@,
                    pointer.generation,
                ).subrange(pointer.offset as int, pointer.offset + pointer.length),
                Err(KvsError::FileNotFound { name }) => !has_generation(self@, pointer.generation)
                    && encode_utf8(name@) == segment_name_bytes(pointer.generation),
                Err(KvsError::Io { .. }) => has_generation(self@, pointer.generation) && !in_bounds(
                    self@,
                    pointer,
                ),
                Err(_) => false,
            },
    {
        match self.find(pointer.generation) {
            None => Err(KvsError::FileNotFound { name: segment_file_name(pointer.generation) }),
            Some(i) => {
                proof {
                    lemma_generation_unique(self@, pointer.generation, i as int);
                }
                let bytes = self.segments[i].bytes.as_slice();
                if pointer.offset > bytes.len() || pointer.length > bytes.len() - pointer.offset {
                    Err(KvsError::Io { reason: "pointer reaches beyond its segment".to_string() })
                } else {
                    Ok(slice_subrange(bytes, pointer.offset, pointer.offset + pointer.length))
                }
            },
        }
    }

    /// Seals the active segment and starts an empty one of the next
    /// generation, which it returns. A log without segments starts at
    /// generation 0.
    ///
    /// Fails with `Io`, and changes nothing, when the active generation is
    /// `u64::MAX`.
    pub fn seal_active_and_start_new(&mut self) -> (res: Result<u64>)
        requires
            old(self).wf(),
        ensures
            final(self).wf(),
            match res {
                Ok(g) => {
                    &&& g == (if old(self)@.len() == 0 {
                        0
                    } else {
                        old(self)@.last().generation + 1
                    })
                    &&& final(self)@ == old(self)@.push(
                        SegmentView { generation: g, bytes: Seq::empty() },
                    )
                },
                Err(e) => {
                    &&& e is Io
                    &&& old(self)@.len() > 0
                    &&& old(self)@.last().generation == u64::MAX
                    &&& final(self)@ == old(self)@
                },
            },
    {
        let ghost segs = self@;
        let n = self.segments.len();
        let generation: u64 = if n == 0 {
            0
        } else {
            let last = self.segments[n - 1].generation;
            if last == u64::MAX {
                return Err(KvsError::Io { reason: "segment generations are used up".to_string() });
            }
            last + 1
        };
        self.segments.push(Segment { generation, bytes: Vec::new() });
        let ghost seg = SegmentView { generation, bytes: Seq::empty() };
        assert(self@ =~= segs.push(seg));
        assert(generations_increase(self@)) by {
            let t = self@;
            assert forall|a: int, b: int| 0 <= a < b < t.len() implies (#[trigger] t[a]).generation
                < (#[trigger] t[b]).generation by {
                assert(t[a] == segs[a]);
                if b < segs.len() {
                    assert(t[b] == segs[b]);
                } else if a < segs.len() - 1 {
                    assert(segs[a].generation < segs[segs.len() - 1].generation);
                }
            }
        }
        Ok(generation)
    }

    /// Deletes the sealed segment with generation `generation`. Returns
    /// `false`, and changes nothing, when there is no such segment or when
    /// it is the active one.
    pub fn delete(&mut self, generation: u64) -> (deleted: bool)
        requires
            old(self).wf(),
        ensures
            final(self).wf(),
            deleted == (has_generation(old(self)@, generation) && old(self)@.last().generation
                != generation),
            !deleted ==> final(self)@ == old(self)@,
            deleted ==> exists|i: int|
                generation_at(old(self)@, generation, i) && final(self)@ == #[trigger] old(
                    self,
                )@.remove(i),
    {
        let ghost segs = self@;
        match self.find(generation) {
            None => false,
            Some(i) => {
                if i == self.segments.len() - 1 {
                    false
                } else {
                    proof {
                        assert(segs[i as int].generation < segs.last().generation);
                    }
                    self.segments.remove(i);
                    assert(self@ =~= segs.remove(i as int));
                    assert(generations_increase(self@)) by {
                        let t = self@;
                        assert forall|a: int, b: int| 0 <= a < b < t.len() implies (
                        #[trigger] t[a]).generation < (#[trigger] t[b]).generation by {
                            let sa = if a < i {
                                a
                            } else {
                                a + 1
                            };
                            let sb = if b < i {
                                b
                            } else {
                                b + 1
                            };
                            assert(t[a] == segs[sa] && t[b] == segs[sb]);
                        }
                    }
                    true
                }
            },
        }
    }
}

} // verus!
