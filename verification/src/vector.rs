//! An indexable, compressed container of `u64` values: an append-only
//! builder packs values into fixed-size chunks, each chunk one block-codec
//! stream in a shared byte buffer, with a sparse index of chunk start
//! offsets. Random access decodes one chunk, never the whole buffer.

use vstd::prelude::*;
use vstd::arithmetic::div_mod::*;
use crate::nibblepacking::{
    spec_unpack_stream, stream_bytes, pack, unpack_raw, lemma_stream_round_trip,
    lemma_stream_len_bound,
};
use crate::CodecError;

verus! {

/// One index entry: the byte offset where a chunk starts, the logical
/// index of its first value, and that value itself.
#[derive(Clone, Copy, Debug)]
pub struct ChunkEntry {
    /// Byte offset of the chunk's stream in the backing buffer.
    pub offset: usize,
    /// Logical index of the chunk's first value.
    pub start: usize,
    /// The chunk's first value, absolute.
    pub first: u64,
}

/// The chunk layout invariant shared by the container and its builder:
/// entries strictly partition both the byte buffer and the value sequence,
/// and every chunk's bytes decode to exactly its values.
pub open spec fn chunks_ok(buf: Seq<u8>, index: Seq<ChunkEntry>, elems: Seq<u64>) -> bool {
    &&& (index.len() == 0 <==> elems.len() == 0)
    &&& (index.len() == 0 ==> buf.len() == 0)
    &&& (index.len() > 0 ==> index[0].start == 0 && index[0].offset == 0)
    &&& forall|c: int| 0 <= c < index.len() ==> #[trigger] chunk_ok_at(buf, index, elems, c)
}

/// What must hold of chunk `c`.
pub open spec fn chunk_ok_at(buf: Seq<u8>, index: Seq<ChunkEntry>, elems: Seq<u64>, c: int) -> bool {
    let cs = index[c].start as int;
    let ce = chunk_limit(index, elems, c);
    let co = index[c].offset as int;
    let coe = chunk_byte_limit(buf, index, c);
    &&& cs < ce <= elems.len()
    &&& 0 <= co < coe <= buf.len()
    &&& spec_unpack_stream(buf.subrange(co, coe), 0) == Ok::<(Seq<u64>, int), CodecError>(
        (elems.subrange(cs, ce), coe - co),
    )
    &&& index[c].first == elems[cs]
}

/// One past the last logical index of chunk `c`.
pub open spec fn chunk_limit(index: Seq<ChunkEntry>, elems: Seq<u64>, c: int) -> int {
    if c + 1 < index.len() {
        index[c + 1].start as int
    } else {
        elems.len() as int
    }
}

/// One past the last byte of chunk `c`.
pub open spec fn chunk_byte_limit(buf: Seq<u8>, index: Seq<ChunkEntry>, c: int) -> int {
    if c + 1 < index.len() {
        index[c + 1].offset as int
    } else {
        buf.len() as int
    }
}

/// Appending one fresh, self-contained chunk at the end of the buffer and
/// the value sequence preserves the layout invariant.
proof fn lemma_chunks_ok_append(
    buf: Seq<u8>,
    index: Seq<ChunkEntry>,
    elems: Seq<u64>,
    add_bytes: Seq<u8>,
    add_vals: Seq<u64>,
    entry: ChunkEntry,
)
    requires
        chunks_ok(buf, index, elems),
        entry.offset == buf.len(),
        entry.start == elems.len(),
        add_vals.len() >= 1,
        add_bytes.len() >= 1,
        entry.first == add_vals[0],
        spec_unpack_stream(add_bytes, 0) == Ok::<(Seq<u64>, int), CodecError>(
            (add_vals, add_bytes.len() as int),
        ),
    ensures
        chunks_ok(buf + add_bytes, index.push(entry), elems + add_vals),
{
    let buf2 = buf + add_bytes;
    let index2 = index.push(entry);
    let elems2 = elems + add_vals;
    assert forall|c: int| 0 <= c < index2.len() implies #[trigger] chunk_ok_at(
        buf2,
        index2,
        elems2,
        c,
    ) by {
        if c < index.len() {
            assert(chunk_ok_at(buf, index, elems, c));
            let cs = index[c].start as int;
            let ce = chunk_limit(index, elems, c);
            let co = index[c].offset as int;
            let coe = chunk_byte_limit(buf, index, c);
            assert(index2[c] == index[c]);
            assert(chunk_limit(index2, elems2, c) == ce);
            assert(chunk_byte_limit(buf2, index2, c) == coe);
            assert(buf2.subrange(co, coe) =~= buf.subrange(co, coe));
            assert(elems2.subrange(cs, ce) =~= elems.subrange(cs, ce));
            assert(elems2[cs] == elems[cs]);
        } else {
            assert(c == index.len());
            assert(index2[c] == entry);
            assert(chunk_limit(index2, elems2, c) == elems2.len());
            assert(chunk_byte_limit(buf2, index2, c) == buf2.len());
            assert(buf2.subrange(entry.offset as int, buf2.len() as int) =~= add_bytes);
            assert(elems2.subrange(entry.start as int, elems2.len() as int) =~= add_vals);
            assert(elems2[entry.start as int] == add_vals[0]);
        }
    };
}

/// An indexable, read-only container of compressed values.
pub struct CompressedVector {
    buf: Vec<u8>,
    index: Vec<ChunkEntry>,
    total: usize,
    elems: Ghost<Seq<u64>>,
}

impl CompressedVector {
    /// The value sequence this container holds.
    pub closed spec fn values(&self) -> Seq<u64> {
        self.elems@
    }

    /// The container's structural invariant; every constructor establishes
    /// it and every accessor relies on it.
    pub closed spec fn wf(&self) -> bool {
        &&& self.elems@.len() == self.total
        &&& self.buf@.len() < usize::MAX / 2
        &&& chunks_ok(self.buf@, self.index@, self.elems@)
    }

    /// How many values the container holds.
    pub fn len(&self) -> (r: usize)
        requires
            self.wf(),
        ensures
            r == self.values().len(),
    {
        self.total
    }

    /// Whether the container holds no values.
    pub fn is_empty(&self) -> (r: bool)
        requires
            self.wf(),
        ensures
            r == (self.values().len() == 0),
    {
        self.total == 0
    }

    /// Random access: decode only the chunk holding position `i` and
    /// return the value there. Cost is bounded by the chunk size, not by
    /// the container's length.
    pub fn get(&self, i: usize) -> (r: u64)
        requires
            self.wf(),
            i < self.values().len(),
        ensures
            r == self.values()[i as int],
    {
        // Find the last entry whose start index is at most `i`.
        let mut lo: usize = 0;
        let mut hi: usize = self.index.len();
        proof {
            assert(chunk_ok_at(self.buf@, self.index@, self.elems@, 0));
        }
        while hi - lo > 1
            invariant
                self.wf(),
                i < self.values().len(),
                lo < hi <= self.index@.len(),
                self.index@[lo as int].start <= i,
                hi < self.index@.len() ==> i < self.index@[hi as int].start,
            decreases hi - lo,
        {
            let mid: usize = lo + (hi - lo) / 2;
            proof {
                lemma_fundamental_div_mod((hi - lo) as int, 2);
                lemma_mod_bound((hi - lo) as int, 2);
            }
            if self.index[mid].start <= i {
                lo = mid;
            } else {
                hi = mid;
            }
        }
        let c: usize = lo;
        let start: usize = self.index[c].start;
        let off: usize = self.index[c].offset;
        let off_end: usize = if c + 1 < self.index.len() {
            self.index[c + 1].offset
        } else {
            self.buf.len()
        };
        proof {
            assert(chunk_ok_at(self.buf@, self.index@, self.elems@, c as int));
            // `i` lies inside chunk `c`: past its start by the search, and
            // before its limit because the next entry starts beyond `i`.
            if c + 1 < self.index@.len() {
                assert(hi == c + 1);
            }
        }
        let chunk = copy_range(&self.buf, off, off_end);
        let mut tmp: Vec<u64> = Vec::new();
        let r = unpack_raw(&chunk, 0, &mut tmp);
        match r {
            Ok(_) => {
                let k: usize = i - start;
                tmp[k]
            },
            Err(_) => {
                proof {
                    assert(false);
                }
                0
            },
        }
    }

    /// Decode every chunk, in order, into one plain vector.
    pub fn to_vec(&self) -> (r: Vec<u64>)
        requires
            self.wf(),
        ensures
            r@ == self.values(),
    {
        let mut out: Vec<u64> = Vec::new();
        let mut c: usize = 0;
        while c < self.index.len()
            invariant
                self.wf(),
                c <= self.index@.len(),
                out@ == self.values().take(
                    if c < self.index@.len() {
                        self.index@[c as int].start as int
                    } else {
                        self.values().len() as int
                    },
                ),
            decreases self.index@.len() - c,
        {
            proof {
                assert(chunk_ok_at(self.buf@, self.index@, self.elems@, c as int));
            }
            let off: usize = self.index[c].offset;
            let off_end: usize = if c + 1 < self.index.len() {
                self.index[c + 1].offset
            } else {
                self.buf.len()
            };
            let chunk = copy_range(&self.buf, off, off_end);
            let mut tmp: Vec<u64> = Vec::new();
            let r = unpack_raw(&chunk, 0, &mut tmp);
            match r {
                Ok(_) => {},
                Err(_) => {
                    proof {
                        assert(false);
                    }
                },
            }
            proof {
                let cs = self.index@[c as int].start as int;
                let ce = chunk_limit(self.index@, self.elems@, c as int);
                assert(self.values().take(cs) + self.values().subrange(cs, ce)
                    =~= self.values().take(ce));
            }
            out.append(&mut tmp);
            c = c + 1;
        }
        proof {
            if self.index@.len() == 0 {
                assert(self.values().take(0) =~= self.values());
            } else {
                assert(self.values().take(self.values().len() as int) =~= self.values());
            }
        }
        out
    }
}

/// A lazy reading position in a `CompressedVector`: it caches one decoded
/// chunk and walks the values in order. A consumer may stop at any point;
/// seeking back to the start is `cursor()` again.
pub struct VectorCursor {
    pos: usize,
    chunk: usize,
    start: usize,
    vals: Vec<u64>,
}

impl VectorCursor {
    /// The next logical index this cursor will yield.
    pub closed spec fn spec_pos(&self) -> int {
        self.pos as int
    }

    /// Whether this cursor is a reading position of `v`.
    pub closed spec fn valid_for(&self, v: &CompressedVector) -> bool {
        &&& self.pos <= v.values().len()
        &&& self.pos < v.values().len() ==> {
            &&& self.chunk < v.index@.len()
            &&& self.start == v.index@[self.chunk as int].start
            &&& self.start <= self.pos <= self.start + self.vals@.len()
            &&& self.start + self.vals@.len() == chunk_limit(v.index@, v.elems@, self.chunk as int)
            &&& self.vals@ == v.values().subrange(
                self.start as int,
                self.start + self.vals@.len(),
            )
        }
    }
}

impl CompressedVector {
    /// Decode the chunk `c` into a fresh vector.
    fn decode_chunk(&self, c: usize) -> (r: Vec<u64>)
        requires
            self.wf(),
            c < self.index@.len(),
        ensures
            r@ == self.values().subrange(
                self.index@[c as int].start as int,
                chunk_limit(self.index@, self.elems@, c as int),
            ),
    {
        proof {
            assert(chunk_ok_at(self.buf@, self.index@, self.elems@, c as int));
        }
        let n: usize = self.index.len();
        let off: usize = self.index[c].offset;
        let off_end: usize = if c + 1 < n {
            self.index[c + 1].offset
        } else {
            self.buf.len()
        };
        let chunk = copy_range(&self.buf, off, off_end);
        let mut tmp: Vec<u64> = Vec::new();
        let r = unpack_raw(&chunk, 0, &mut tmp);
        match r {
            Ok(_) => {},
            Err(_) => {
                proof {
                    assert(false);
                }
            },
        }
        tmp
    }

    /// A cursor at the first value. Calling this again restarts iteration.
    pub fn cursor(&self) -> (r: VectorCursor)
        requires
            self.wf(),
        ensures
            r.valid_for(self),
            r.spec_pos() == 0,
    {
        if self.total == 0 {
            VectorCursor { pos: 0, chunk: 0, start: 0, vals: Vec::new() }
        } else {
            proof {
                assert(chunk_ok_at(self.buf@, self.index@, self.elems@, 0));
            }
            let vals = self.decode_chunk(0);
            VectorCursor { pos: 0, chunk: 0, start: 0, vals }
        }
    }

    /// Yield the value under the cursor and advance it, decoding the next
    /// chunk only when the cached one is exhausted; `None` at the end.
    pub fn next_value(&self, cur: &mut VectorCursor) -> (r: Option<u64>)
        requires
            self.wf(),
            old(cur).valid_for(self),
        ensures
            final(cur).valid_for(self),
            match r {
                Some(x) => old(cur).spec_pos() < self.values().len() && x == self.values()[old(
                    cur,
                ).spec_pos()] && final(cur).spec_pos() == old(cur).spec_pos() + 1,
                None => old(cur).spec_pos() == self.values().len() && final(cur).spec_pos() == old(
                    cur,
                ).spec_pos(),
            },
    {
        if cur.pos >= self.total {
            return None;
        }
        proof {
            assert(chunk_ok_at(self.buf@, self.index@, self.elems@, cur.chunk as int));
        }
        if cur.pos - cur.start >= cur.vals.len() {
            // The cached chunk is exhausted; the next one starts here.
            proof {
                assert(chunk_limit(self.index@, self.elems@, cur.chunk as int)
                    < self.elems@.len());
                assert(cur.chunk + 1 < self.index@.len());
                assert(chunk_ok_at(self.buf@, self.index@, self.elems@, cur.chunk + 1));
            }
            let _n: usize = self.index.len();
            let c2: usize = cur.chunk + 1;
            let vals = self.decode_chunk(c2);
            cur.chunk = c2;
            cur.start = self.index[c2].start;
            cur.vals = vals;
        }
        let k: usize = cur.pos - cur.start;
        let x: u64 = cur.vals[k];
        cur.pos = cur.pos + 1;
        Some(x)
    }
}

/// Copy the bytes of `[a, b)`.
fn copy_range(buf: &Vec<u8>, a: usize, b: usize) -> (r: Vec<u8>)
    requires
        a <= b <= buf@.len(),
    ensures
        r@ == buf@.subrange(a as int, b as int),
{
    let mut r: Vec<u8> = Vec::new();
    let mut k: usize = a;
    while k < b
        invariant
            a <= k <= b <= buf@.len(),
            r@ =~= buf@.subrange(a as int, k as int),
        decreases b - k,
    {
        proof {
            assert(buf@.subrange(a as int, k + 1) =~= buf@.subrange(a as int, k as int).push(
                buf@[k as int],
            ));
        }
        r.push(buf[k]);
        k = k + 1;
    }
    r
}

/// Builds a `CompressedVector` by appending values: they are staged until
/// a chunk's worth is ready, then encoded as one stream and indexed.
pub struct CompressedVectorBuilder {
    buf: Vec<u8>,
    index: Vec<ChunkEntry>,
    total: usize,
    chunk_size: usize,
    staged: Vec<u64>,
    elems: Ghost<Seq<u64>>,
}

impl CompressedVectorBuilder {
    /// The values already encoded into the buffer.
    closed spec fn committed(&self) -> Seq<u64> {
        self.elems@
    }

    /// Every value pushed so far, encoded or still staged.
    pub closed spec fn values(&self) -> Seq<u64> {
        self.elems@ + self.staged@
    }

    /// The configured chunk size.
    pub closed spec fn spec_chunk_size(&self) -> int {
        self.chunk_size as int
    }

    closed spec fn wf_core(&self) -> bool {
        &&& chunks_ok(self.buf@, self.index@, self.elems@)
        &&& self.total == self.elems@.len()
        &&& self.buf@.len() <= 79 * self.elems@.len()
        &&& self.elems@.len() <= usize::MAX / 158
        &&& 1 <= self.chunk_size <= 0xFFFFFFFF
        &&& self.chunk_size <= usize::MAX / 2
    }

    /// The builder's structural invariant.
    pub closed spec fn wf(&self) -> bool {
        &&& self.wf_core()
        &&& self.staged@.len() < self.chunk_size
        &&& self.elems@.len() + self.staged@.len() <= usize::MAX / 158
    }

    /// A fresh builder that closes a chunk every `chunk_size` values.
    /// Smaller chunks buy cheaper random access with a larger index.
    pub fn new(chunk_size: usize) -> (b: Self)
        requires
            1 <= chunk_size <= 0xFFFFFFFF,
            chunk_size <= usize::MAX / 2,
        ensures
            b.wf(),
            b.values() == Seq::<u64>::empty(),
            b.spec_chunk_size() == chunk_size,
    {
        let b = CompressedVectorBuilder {
            buf: Vec::new(),
            index: Vec::new(),
            total: 0,
            chunk_size,
            staged: Vec::new(),
            elems: Ghost(Seq::empty()),
        };
        proof {
            assert(b.values() =~= Seq::<u64>::empty());
        }
        b
    }

    /// Encode the staged values as one chunk.
    fn flush_staged(&mut self)
        requires
            old(self).wf_core(),
            1 <= old(self).staged@.len() <= old(self).chunk_size,
            old(self).values().len() <= usize::MAX / 158,
        ensures
            final(self).wf_core(),
            final(self).staged@.len() == 0,
            final(self).committed() == old(self).values(),
            final(self).values() == old(self).values(),
            final(self).chunk_size == old(self).chunk_size,
    {
        let entry = ChunkEntry { offset: self.buf.len(), start: self.total, first: self.staged[0] };
        let ghost buf0: Seq<u8> = self.buf@;
        let ghost elems0: Seq<u64> = self.elems@;
        let ghost index0: Seq<ChunkEntry> = self.index@;
        let ghost staged0: Seq<u64> = self.staged@;
        self.index.push(entry);
        pack(&self.staged, &mut self.buf);
        proof {
            lemma_stream_round_trip(staged0);
            lemma_stream_len_bound(staged0);
            assert(self.buf@.subrange(buf0.len() as int, self.buf@.len() as int) =~= stream_bytes(
                staged0,
            ));
            assert(spec_unpack_stream(
                self.buf@.subrange(buf0.len() as int, self.buf@.len() as int),
                0,
            ) == Ok::<(Seq<u64>, int), CodecError>(
                (staged0, stream_bytes(staged0).len() as int),
            ));
            lemma_chunks_ok_append(
                buf0,
                index0,
                elems0,
                stream_bytes(staged0),
                staged0,
                entry,
            );
            assert(self.buf@ =~= buf0 + stream_bytes(staged0));
            self.elems@ = elems0 + staged0;
        }
        self.total = self.total + self.staged.len();
        self.staged.clear();
        proof {
            assert(self.values() =~= self.elems@);
            // The byte budget: one chunk costs at most 79 bytes per value.
            assert(self.buf@.len() <= 79 * self.elems@.len()) by (nonlinear_arith)
                requires
                    self.buf@.len() <= buf0.len() + stream_bytes(staged0).len(),
                    buf0.len() <= 79 * elems0.len(),
                    stream_bytes(staged0).len() <= 79 * staged0.len(),
                    self.elems@.len() == elems0.len() + staged0.len(),
            ;
        }
    }

    /// Append one value; a full staging buffer is encoded as a chunk.
    pub fn push(&mut self, v: u64)
        requires
            old(self).wf(),
            old(self).values().len() < usize::MAX / 158,
        ensures
            final(self).wf(),
            final(self).values() == old(self).values().push(v),
            final(self).spec_chunk_size() == old(self).spec_chunk_size(),
    {
        self.staged.push(v);
        proof {
            assert(old(self).elems@ + old(self).staged@.push(v) =~= (old(self).elems@ + old(
                self,
            ).staged@).push(v));
        }
        if self.staged.len() == self.chunk_size {
            self.flush_staged();
        }
    }

    /// Encode whatever is still staged and hand over the finished,
    /// read-only container.
    pub fn finish(self) -> (v: CompressedVector)
        requires
            self.wf(),
        ensures
            v.wf(),
            v.values() == self.values(),
    {
        let mut b = self;
        if b.staged.len() > 0 {
            b.flush_staged();
        }
        proof {
            assert(b.values() =~= b.elems@);
            // The byte budget keeps the buffer inside the decodable range.
            assert(79 * b.elems@.len() < usize::MAX / 2) by {
                lemma_div_denominator(usize::MAX as int, 2, 79);
                assert(usize::MAX as int / 158 == (usize::MAX as int / 2) / 79);
                lemma_fundamental_div_mod(usize::MAX as int / 2, 79);
                assert(79 * b.elems@.len() <= 79 * ((usize::MAX as int / 2) / 79))
                    by (nonlinear_arith)
                    requires
                        b.elems@.len() <= (usize::MAX as int / 2) / 79,
                ;
                lemma_mod_bound(usize::MAX as int / 2, 79);
            };
        }
        CompressedVector { buf: b.buf, index: b.index, total: b.total, elems: b.elems }
    }

    /// How many values have been pushed so far.
    pub fn len(&self) -> (r: usize)
        requires
            self.wf(),
        ensures
            r == self.values().len(),
    {
        self.total + self.staged.len()
    }
}

} // verus!
