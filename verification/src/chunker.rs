//! Re-framing of an inbound byte stream into fixed-size chunks.
//!
//! File bodies and handshake payloads traverse the data channel as frames of
//! at most `CHUNK_SIZE` bytes, the largest payload the channel carries without
//! fragmentation. The `Chunker` keeps one growable buffer: every input buffer
//! is appended, every full chunk is split off, and the non-empty tail is
//! flushed when the input is exhausted.

use vstd::prelude::*;
use vstd::seq_lib::lemma_flatten_concat;

verus! {

/// Size of every chunk except possibly the last: 16 KiB.
pub const CHUNK_SIZE: usize = 16384;

/// The chunk sequence that re-framing `s` produces: full `CHUNK_SIZE` chunks,
/// then the non-empty remainder, and nothing at all for an empty input.
pub open spec fn chunks_of(s: Seq<u8>) -> Seq<Seq<u8>>
    decreases s.len(),
{
    if s.len() == 0 {
        Seq::empty()
    } else if s.len() <= CHUNK_SIZE {
        seq![s]
    } else {
        seq![s.take(CHUNK_SIZE as int)] + chunks_of(s.skip(CHUNK_SIZE as int))
    }
}

/// The bytes of a sequence of chunks, in order.
pub open spec fn concat_of(chunks: Seq<Vec<u8>>) -> Seq<u8> {
    chunks.map_values(|c: Vec<u8>| c@).flatten()
}

/// Streaming re-framer: one growable buffer holding the bytes received so far
/// that have not yet been emitted as chunks.
pub struct Chunker {
    buf: Vec<u8>,
}

impl View for Chunker {
    type V = Seq<u8>;

    closed spec fn view(&self) -> Seq<u8> {
        self.buf@
    }
}

impl Chunker {
    pub fn new() -> (c: Chunker)
        ensures
            c@ == Seq::<u8>::empty(),
    {
        Chunker { buf: Vec::new() }
    }

    /// Append `data` to the buffer and split off every full chunk now
    /// available. The bytes held before plus `data` are exactly the emitted
    /// chunks followed by what the buffer still holds.
    pub fn push(&mut self, data: &Vec<u8>) -> (chunks: Vec<Vec<u8>>)
        ensures
            old(self)@ + data@ == concat_of(chunks@) + final(self)@,
            forall|i: int| 0 <= i < chunks@.len() ==> (#[trigger] chunks@[i])@.len() == CHUNK_SIZE,
            final(self)@.len() < CHUNK_SIZE,
    {
        broadcast use Seq::lemma_flatten_push;

        self.buf.extend_from_slice(data.as_slice());
        let ghost total: Seq<u8> = self.buf@;
        let mut chunks: Vec<Vec<u8>> = Vec::new();
        while self.buf.len() >= CHUNK_SIZE
            invariant
                total == concat_of(chunks@) + self.buf@,
                forall|i: int| 0 <= i < chunks@.len() ==> (#[trigger] chunks@[i])@.len()
                    == CHUNK_SIZE,
            decreases self.buf.len(),
        {
            let ghost before: Seq<u8> = self.buf@;
            let mut tail = self.buf.split_off(CHUNK_SIZE);
            core::mem::swap(&mut self.buf, &mut tail);
            proof {
                assert(before =~= tail@ + self.buf@);
                assert(chunks@.push(tail).map_values(|c: Vec<u8>| c@) =~= chunks@.map_values(
                    |c: Vec<u8>| c@,
                ).push(tail@));
                chunks@.map_values(|c: Vec<u8>| c@).lemma_flatten_push(tail@);
                assert(total =~= concat_of(chunks@.push(tail)) + self.buf@);
            }
            chunks.push(tail);
        }
        chunks
    }

    /// Flush the remainder: the final short chunk, or nothing when the buffer
    /// is empty.
    pub fn finish(&mut self) -> (tail: Option<Vec<u8>>)
        ensures
            final(self)@.len() == 0,
            match tail {
                Some(t) => t@ == old(self)@ && t@.len() > 0,
                None => old(self)@.len() == 0,
            },
    {
        if self.buf.len() == 0 {
            None
        } else {
            let mut t: Vec<u8> = Vec::new();
            core::mem::swap(&mut self.buf, &mut t);
            Some(t)
        }
    }
}

/// Re-frame a whole input sequence at once: the chunks of the concatenation
/// of `inputs`. This is the batch form of feeding every buffer to a `Chunker`
/// and flushing the tail.
pub fn chunk_all(inputs: &Vec<Vec<u8>>) -> (chunks: Vec<Vec<u8>>)
    ensures
        chunks@.map_values(|c: Vec<u8>| c@) == chunks_of(concat_of(inputs@)),
{
    broadcast use Seq::lemma_flatten_push;

    let mut ch = Chunker::new();
    let mut chunks: Vec<Vec<u8>> = Vec::new();
    let mut i: usize = 0;
    while i < inputs.len()
        invariant
            i <= inputs.len(),
            concat_of(inputs@.subrange(0, i as int)) == concat_of(chunks@) + ch@,
            forall|j: int| 0 <= j < chunks@.len() ==> (#[trigger] chunks@[j])@.len() == CHUNK_SIZE,
            ch@.len() < CHUNK_SIZE,
        decreases inputs.len() - i,
    {
        let ghost chunks_before = chunks@;
        let ghost ch_before = ch@;
        let mut fresh = ch.push(&inputs[i]);
        let ghost fresh_snap = fresh@;
        chunks.append(&mut fresh);
        proof {
            assert(inputs@.subrange(0, i + 1).map_values(|c: Vec<u8>| c@) =~= inputs@.subrange(
                0,
                i as int,
            ).map_values(|c: Vec<u8>| c@).push(inputs@[i as int]@));
            inputs@.subrange(0, i as int).map_values(|c: Vec<u8>| c@).lemma_flatten_push(
                inputs@[i as int]@,
            );
            assert(concat_of(inputs@.subrange(0, i + 1)) =~= concat_of(
                inputs@.subrange(0, i as int),
            ) + inputs@[i as int]@);
            assert(chunks@.map_values(|c: Vec<u8>| c@) =~= chunks_before.map_values(
                |c: Vec<u8>| c@,
            ) + fresh_snap.map_values(|c: Vec<u8>| c@));
            lemma_flatten_concat(
                chunks_before.map_values(|c: Vec<u8>| c@),
                fresh_snap.map_values(|c: Vec<u8>| c@),
            );
            assert(concat_of(chunks@) =~= concat_of(chunks_before) + concat_of(fresh_snap));
            assert(concat_of(inputs@.subrange(0, i + 1)) =~= (concat_of(chunks_before)
                + ch_before) + inputs@[i as int]@);
            assert((concat_of(chunks_before) + ch_before) + inputs@[i as int]@
                =~= concat_of(chunks_before) + (ch_before + inputs@[i as int]@));
            assert(ch_before + inputs@[i as int]@ == concat_of(fresh_snap) + ch@);
            assert(concat_of(chunks_before) + (concat_of(fresh_snap) + ch@) =~= (concat_of(
                chunks_before,
            ) + concat_of(fresh_snap)) + ch@);
            assert(concat_of(inputs@.subrange(0, i + 1)) =~= concat_of(chunks@) + ch@);
        }
        i = i + 1;
    }
    assert(concat_of(inputs@.subrange(0, inputs@.len() as int)) == concat_of(chunks@) + ch@);
    assert(inputs@.subrange(0, inputs@.len() as int) =~= inputs@);
    let ghost full_part = chunks@;
    let tail = ch.finish();
    match tail {
        Some(t) => {
            proof {
                assert(full_part.push(t).map_values(|c: Vec<u8>| c@) =~= full_part.map_values(
                    |c: Vec<u8>| c@,
                ).push(t@));
                lemma_chunks_of_parts(full_part.map_values(|c: Vec<u8>| c@), t@);
            }
            let mut chunks = chunks;
            chunks.push(t);
            chunks
        },
        None => {
            proof {
                lemma_chunks_of_parts(full_part.map_values(|c: Vec<u8>| c@), Seq::empty());
                assert(concat_of(chunks@) + Seq::<u8>::empty() =~= concat_of(chunks@));
            }
            chunks
        },
    }
}

/// A sequence made of full chunks followed by a short tail is its own chunk
/// decomposition: `chunks_of` recovers exactly those parts.
proof fn lemma_chunks_of_parts(full: Seq<Seq<u8>>, tail: Seq<u8>)
    requires
        forall|i: int| 0 <= i < full.len() ==> (#[trigger] full[i]).len() == CHUNK_SIZE,
        tail.len() < CHUNK_SIZE,
    ensures
        chunks_of(full.flatten() + tail) == if tail.len() == 0 {
            full
        } else {
            full.push(tail)
        },
    decreases full.len(),
{
    if full.len() == 0 {
        assert(full.flatten() + tail =~= tail);
        if tail.len() == 0 {
            assert(chunks_of(tail) =~= full);
        } else {
            assert(chunks_of(tail) =~= full.push(tail));
        }
    } else {
        let s = full.flatten() + tail;
        let rest = full.drop_first().flatten() + tail;
        assert(full.flatten() == full.first() + full.drop_first().flatten());
        assert(s =~= full.first() + rest);
        lemma_chunks_of_parts(full.drop_first(), tail);
        if rest.len() == 0 {
            assert(s =~= full.first());
            assert(chunks_of(s) == seq![s]);
            assert(full.drop_first() =~= Seq::<Seq<u8>>::empty());
            assert(full =~= seq![full.first()]);
            assert(chunks_of(s) =~= full);
        } else {
            assert(s.len() > CHUNK_SIZE);
            assert(s.take(CHUNK_SIZE as int) =~= full.first());
            assert(s.skip(CHUNK_SIZE as int) =~= rest);
            if tail.len() == 0 {
                assert(chunks_of(s) =~= seq![full.first()] + full.drop_first());
                assert(seq![full.first()] + full.drop_first() =~= full);
            } else {
                assert(chunks_of(s) =~= seq![full.first()] + full.drop_first().push(tail));
                assert(seq![full.first()] + full.drop_first().push(tail) =~= full.push(tail));
            }
        }
    }
}

/// Chunker exactness, part one: the chunks concatenate back to the input.
pub proof fn lemma_chunks_concat(s: Seq<u8>)
    ensures
        chunks_of(s).flatten() == s,
    decreases s.len(),
{
    broadcast use Seq::lemma_flatten_singleton;

    if s.len() == 0 {
        assert(chunks_of(s).flatten() =~= s);
    } else if s.len() <= CHUNK_SIZE {
        assert(chunks_of(s).flatten() =~= s);
    } else {
        lemma_chunks_concat(s.skip(CHUNK_SIZE as int));
        lemma_flatten_concat(
            seq![s.take(CHUNK_SIZE as int)],
            chunks_of(s.skip(CHUNK_SIZE as int)),
        );
        assert(seq![s.take(CHUNK_SIZE as int)].flatten() =~= s.take(CHUNK_SIZE as int));
        assert(s.take(CHUNK_SIZE as int) + s.skip(CHUNK_SIZE as int) =~= s);
    }
}

/// Chunker exactness, part two: an input of `n` bytes yields exactly
/// `ceil(n / CHUNK_SIZE)` chunks.
pub proof fn lemma_chunks_count(s: Seq<u8>)
    ensures
        chunks_of(s).len() == (s.len() + (CHUNK_SIZE - 1)) / (CHUNK_SIZE as int),
    decreases s.len(),
{
    let c = CHUNK_SIZE as int;
    if s.len() == 0 {
        assert((0 + (c - 1)) / c == 0) by (nonlinear_arith)
            requires
                c > 1,
        ;
    } else if s.len() <= CHUNK_SIZE {
        assert((s.len() + (c - 1)) / c == 1) by (nonlinear_arith)
            requires
                c > 1 && 0 < s.len() <= c,
        ;
    } else {
        lemma_chunks_count(s.skip(CHUNK_SIZE as int));
        let n = s.len() as int;
        assert(((n - c) + (c - 1)) / c + 1 == (n + (c - 1)) / c) by (nonlinear_arith)
            requires
                c > 1 && n > c,
        ;
    }
}

/// Chunker exactness, part three: every chunk except possibly the last has
/// length exactly `CHUNK_SIZE`, and the last is non-empty and no longer.
pub proof fn lemma_chunks_sizes(s: Seq<u8>)
    ensures
        forall|i: int|
            0 <= i < chunks_of(s).len() - 1 ==> (#[trigger] chunks_of(s)[i]).len() == CHUNK_SIZE,
        chunks_of(s).len() > 0 ==> 0 < chunks_of(s).last().len() <= CHUNK_SIZE,
    decreases s.len(),
{
    if s.len() > CHUNK_SIZE {
        lemma_chunks_sizes(s.skip(CHUNK_SIZE as int));
    }
}

} // verus!
