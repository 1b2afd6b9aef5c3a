//! The body chunker: a streaming splitter that turns the bytes of a request
//! body into blocks of a fixed size, the last block possibly shorter. The
//! caller feeds bytes as they arrive and drains blocks as they fill;
//! concatenating everything drained gives back exactly the bytes fed.

use vstd::prelude::*;

verus! {

/// The blocks a byte string splits into at `bs`: full blocks of `bs` bytes,
/// then the remainder if any. The empty string yields no blocks.
pub open spec fn chunks_of(s: Seq<u8>, bs: nat) -> Seq<Seq<u8>>
    decreases s.len(),
{
    if bs == 0 || s.len() == 0 {
        Seq::empty()
    } else if s.len() <= bs {
        seq![s]
    } else {
        seq![s.take(bs as int)] + chunks_of(s.skip(bs as int), bs)
    }
}

/// The concatenation of a sequence of byte strings.
pub open spec fn concat_bytes(cs: Seq<Seq<u8>>) -> Seq<u8>
    decreases cs.len(),
{
    if cs.len() == 0 {
        Seq::empty()
    } else {
        cs[0] + concat_bytes(cs.drop_first())
    }
}

/// Reassembly: concatenating the blocks a byte string was chunked into gives
/// back the byte string, whatever the block size.
pub proof fn lemma_chunks_reassemble(s: Seq<u8>, bs: nat)
    requires
        bs > 0,
    ensures
        concat_bytes(chunks_of(s, bs)) == s,
    decreases s.len(),
{
    if s.len() == 0 {
        assert(concat_bytes(chunks_of(s, bs)) =~= s);
    } else if s.len() <= bs {
        let cs = chunks_of(s, bs);
        assert(cs == seq![s]);
        assert(cs[0] == s);
        assert(cs.drop_first() =~= Seq::<Seq<u8>>::empty());
        assert(concat_bytes(cs) == s + concat_bytes(Seq::<Seq<u8>>::empty()));
        assert(s + Seq::<u8>::empty() =~= s);
    } else {
        lemma_chunks_reassemble(s.skip(bs as int), bs);
        let cs = chunks_of(s, bs);
        assert(cs[0] == s.take(bs as int));
        assert(cs.drop_first() =~= chunks_of(s.skip(bs as int), bs));
        assert(s.take(bs as int) + s.skip(bs as int) =~= s);
    }
}

/// Every block of a chunking is nonempty and at most `bs` long, and all but
/// the last are exactly `bs` long.
pub proof fn lemma_chunks_shape(s: Seq<u8>, bs: nat)
    requires
        bs > 0,
    ensures
        forall|i: int| 0 <= i < chunks_of(s, bs).len() ==> 0 < (#[trigger] chunks_of(s, bs)[i]).len()
            <= bs,
        forall|i: int| 0 <= i < chunks_of(s, bs).len() - 1 ==> (#[trigger] chunks_of(s, bs)[i]).len()
            == bs,
    decreases s.len(),
{
    if s.len() > bs {
        lemma_chunks_shape(s.skip(bs as int), bs);
        let cs = chunks_of(s, bs);
        let rest = chunks_of(s.skip(bs as int), bs);
        assert forall|i: int| 0 <= i < cs.len() implies 0 < (#[trigger] cs[i]).len() <= bs by {
            if i > 0 {
                assert(cs[i] == rest[i - 1]);
            }
        }
        assert forall|i: int| 0 <= i < cs.len() - 1 implies (#[trigger] cs[i]).len() == bs by {
            if i > 0 {
                assert(cs[i] == rest[i - 1]);
            }
        }
    }
}

/// Chunking a byte string whose length is a positive multiple of `bs`,
/// extended by a tail shorter than or equal to `bs`, yields the full blocks
/// of the prefix followed by the tail as one block.
pub proof fn lemma_chunks_extend(done: Seq<Seq<u8>>, tail: Seq<u8>, bs: nat)
    requires
        bs > 0,
        forall|i: int| 0 <= i < done.len() ==> (#[trigger] done[i]).len() == bs,
        0 < tail.len() <= bs,
    ensures
        chunks_of(concat_bytes(done) + tail, bs) == done + seq![tail],
    decreases done.len(),
{
    if done.len() == 0 {
        assert(concat_bytes(done) + tail =~= tail);
        assert(chunks_of(tail, bs) =~= seq![tail]);
        assert(done + seq![tail] =~= seq![tail]);
    } else {
        let s = concat_bytes(done) + tail;
        assert(concat_bytes(done) == done[0] + concat_bytes(done.drop_first()));
        lemma_concat_full_len(done.drop_first(), bs);
        assert(s.len() == bs + concat_bytes(done.drop_first()).len() + tail.len());
        assert(s.len() > bs);
        assert(s.take(bs as int) =~= done[0]);
        assert(s.skip(bs as int) =~= concat_bytes(done.drop_first()) + tail);
        lemma_chunks_extend(done.drop_first(), tail, bs);
        assert(chunks_of(s, bs) == seq![done[0]] + (done.drop_first() + seq![tail]));
        assert(seq![done[0]] + (done.drop_first() + seq![tail]) =~= done + seq![tail]);
    }
}

/// The length of a concatenation of full blocks.
pub proof fn lemma_concat_full_len(done: Seq<Seq<u8>>, bs: nat)
    requires
        forall|i: int| 0 <= i < done.len() ==> (#[trigger] done[i]).len() == bs,
    ensures
        concat_bytes(done).len() == done.len() * bs,
    decreases done.len(),
{
    if done.len() > 0 {
        assert forall|i: int| 0 <= i < done.drop_first().len() implies (
        #[trigger] done.drop_first()[i]).len() == bs by {
            assert(done.drop_first()[i] == done[i + 1]);
        }
        lemma_concat_full_len(done.drop_first(), bs);
        assert(done.len() * bs == (done.len() - 1) * bs + bs) by (nonlinear_arith);
    }
}

/// The streaming splitter. Bytes are fed in as they arrive from the request
/// body; a block can be drained whenever the buffer holds a full block or the
/// input has ended. The blocks drained are exactly the chunking of the bytes
/// fed.
pub struct Chunker {
    block_size: usize,
    read_all: bool,
    buf: Vec<u8>,
    emitted: Ghost<Seq<Seq<u8>>>,
}

impl Chunker {
    /// The blocks drained so far.
    pub closed spec fn chunks_out(&self) -> Seq<Seq<u8>> {
        self.emitted@
    }

    /// Every byte fed so far: the drained blocks, then what the buffer holds.
    pub closed spec fn fed(&self) -> Seq<u8> {
        concat_bytes(self.emitted@) + self.buf@
    }

    /// The block size this chunker splits at.
    pub closed spec fn spec_block_size(&self) -> nat {
        self.block_size as nat
    }

    /// Whether the input has been declared over.
    pub closed spec fn input_ended(&self) -> bool {
        self.read_all
    }

    /// How many bytes sit in the buffer, not yet drained.
    pub closed spec fn buffered(&self) -> nat {
        self.buf@.len()
    }

    /// Well-formedness: every drained block was full, except that the last
    /// may be short once the input ended and the buffer emptied — after
    /// which nothing more is drained.
    pub closed spec fn inv(&self) -> bool {
        &&& self.block_size > 0
        &&& forall|i: int| 0 <= i < self.emitted@.len() ==> 0 < (#[trigger] self.emitted@[i]).len()
            <= self.block_size
        &&& forall|i: int| 0 <= i < self.emitted@.len() && ((#[trigger] self.emitted@[i]).len()
            < self.block_size) ==> i == self.emitted@.len() - 1 && self.read_all && self.buf@.len()
            == 0
    }

    /// A chunker that splits at `block_size`.
    pub fn new(block_size: usize) -> (r: Self)
        requires
            block_size > 0,
        ensures
            r.inv(),
            r.spec_block_size() == block_size,
            r.chunks_out() == Seq::<Seq<u8>>::empty(),
            r.fed() == Seq::<u8>::empty(),
            !r.input_ended(),
            r.buffered() == 0,
    {
        let r = Chunker { block_size, read_all: false, buf: Vec::new(), emitted: Ghost(Seq::empty()) };
        proof {
            assert(r.fed() =~= Seq::<u8>::empty());
        }
        r
    }

    /// Whether the stream is over and everything fed has been drained: the
    /// state in which nothing further will come out.
    pub fn exhausted(&self) -> (r: bool)
        ensures
            r == (self.input_ended() && self.buffered() == 0),
    {
        self.read_all && self.buf.len() == 0
    }

    /// Whether the chunker wants more input before it can decide the next
    /// block: the input has not ended and the buffer is not yet full.
    pub fn needs_input(&self) -> (r: bool)
        ensures
            r == (!self.input_ended() && self.buffered() < self.spec_block_size()),
    {
        !self.read_all && self.buf.len() < self.block_size
    }

    /// Feed bytes that arrived from the body.
    pub fn feed(&mut self, bytes: &[u8])
        requires
            old(self).inv(),
            !old(self).input_ended(),
        ensures
            final(self).inv(),
            final(self).fed() == old(self).fed() + bytes@,
            final(self).chunks_out() == old(self).chunks_out(),
            final(self).spec_block_size() == old(self).spec_block_size(),
            !final(self).input_ended(),
            final(self).buffered() == old(self).buffered() + bytes@.len(),
    {
        self.buf.extend_from_slice(bytes);
        proof {
            assert(self.buf@ =~= old(self).buf@ + bytes@);
            assert(self.fed() =~= old(self).fed() + bytes@);
            assert forall|i: int|
                0 <= i < self.emitted@.len() && ((#[trigger] self.emitted@[i]).len()
                    < self.block_size) implies i == self.emitted@.len() - 1 && self.read_all
                && self.buf@.len() == 0 by {}
        }
    }

    /// Declare the input over: the body yielded its last bytes.
    pub fn end_input(&mut self)
        requires
            old(self).inv(),
            !old(self).input_ended(),
        ensures
            final(self).inv(),
            final(self).fed() == old(self).fed(),
            final(self).chunks_out() == old(self).chunks_out(),
            final(self).spec_block_size() == old(self).spec_block_size(),
            final(self).input_ended(),
            final(self).buffered() == old(self).buffered(),
    {
        self.read_all = true;
    }

    /// Drain the next block: a full block if one is buffered, the remainder
    /// once the input has ended, `None` exactly once the input has ended and
    /// nothing is buffered.
    pub fn next_chunk(&mut self) -> (r: Option<Vec<u8>>)
        requires
            old(self).inv(),
            old(self).input_ended() || old(self).buffered() >= old(self).spec_block_size(),
        ensures
            final(self).inv(),
            final(self).fed() == old(self).fed(),
            final(self).spec_block_size() == old(self).spec_block_size(),
            final(self).input_ended() == old(self).input_ended(),
            match r {
                None => old(self).buffered() == 0 && final(self).chunks_out() == old(
                    self,
                ).chunks_out() && final(self).buffered() == 0,
                Some(block) => {
                    &&& 0 < block@.len() <= old(self).spec_block_size()
                    &&& block@.len() == if old(self).buffered() <= old(self).spec_block_size() {
                        old(self).buffered()
                    } else {
                        old(self).spec_block_size()
                    }
                    &&& block@ == old(self).buf_spec().take(block@.len() as int)
                    &&& final(self).chunks_out() == old(self).chunks_out().push(block@)
                    &&& final(self).buffered() == old(self).buffered() - block@.len()
                },
            },
    {
        if self.buf.len() == 0 {
            return None;
        }
        if self.buf.len() <= self.block_size {
            let mut block: Vec<u8> = Vec::new();
            core::mem::swap(&mut block, &mut self.buf);
            proof {
                self.emitted@ = self.emitted@.push(block@);
                assert(block@ == old(self).buf_spec().take(block@.len() as int)) by {
                    assert(old(self).buf_spec().take(block@.len() as int) =~= block@);
                }
                assert(self.fed() =~= old(self).fed()) by {
                    lemma_concat_push(old(self).emitted@, block@);
                }
            }
            Some(block)
        } else {
            let rest = self.buf.split_off(self.block_size);
            let mut block = rest;
            core::mem::swap(&mut block, &mut self.buf);
            proof {
                self.emitted@ = self.emitted@.push(block@);
                assert(block@ =~= old(self).buf_spec().take(self.block_size as int));
                assert(self.buf@ =~= old(self).buf_spec().skip(self.block_size as int));
                assert(self.fed() =~= old(self).fed()) by {
                    lemma_concat_push(old(self).emitted@, block@);
                    assert(block@ + self.buf@ =~= old(self).buf_spec());
                }
            }
            Some(block)
        }
    }

    /// The bytes currently buffered.
    pub closed spec fn buf_spec(&self) -> Seq<u8> {
        self.buf@
    }

    /// Once the input has ended and the buffer has been drained, the blocks
    /// drained are exactly the chunking of the bytes fed.
    pub proof fn lemma_done_chunks(&self)
        requires
            self.inv(),
            self.input_ended(),
            self.buffered() == 0,
        ensures
            self.chunks_out() == chunks_of(self.fed(), self.spec_block_size()),
    {
        let e = self.emitted@;
        let bs = self.block_size as nat;
        assert(self.fed() =~= concat_bytes(e));
        if e.len() == 0 {
            assert(chunks_of(self.fed(), bs) =~= e);
        } else if e.last().len() == bs {
            assert forall|i: int| 0 <= i < e.len() implies (#[trigger] e[i]).len() == bs by {}
            lemma_concat_full_len(e.drop_last(), bs);
            assert(concat_bytes(e) =~= concat_bytes(e.drop_last()) + e.last()) by {
                lemma_concat_push(e.drop_last(), e.last());
                assert(e.drop_last().push(e.last()) =~= e);
            }
            lemma_chunks_extend(e.drop_last(), e.last(), bs);
            assert(e.drop_last() + seq![e.last()] =~= e);
        } else {
            assert(e.last().len() < bs);
            assert forall|i: int| 0 <= i < e.drop_last().len() implies (
            #[trigger] e.drop_last()[i]).len() == bs by {
                assert(e.drop_last()[i] == e[i]);
                assert(e[i].len() == bs) by {
                    if e[i].len() < bs {
                        assert(i == e.len() - 1);
                    }
                }
            }
            assert(concat_bytes(e) =~= concat_bytes(e.drop_last()) + e.last()) by {
                lemma_concat_push(e.drop_last(), e.last());
                assert(e.drop_last().push(e.last()) =~= e);
            }
            lemma_chunks_extend(e.drop_last(), e.last(), bs);
            assert(e.drop_last() + seq![e.last()] =~= e);
        }
    }
}

/// What a drained chunker's blocks reassemble to: exactly the bytes fed.
/// Whoever stores these blocks reconstructs the body by concatenating them
/// in order.
pub proof fn lemma_drained_blocks_reassemble(c: &Chunker)
    requires
        c.inv(),
        c.input_ended(),
        c.buffered() == 0,
    ensures
        concat_bytes(c.chunks_out()) == c.fed(),
{
    c.lemma_done_chunks();
    lemma_chunks_reassemble(c.fed(), c.spec_block_size());
}

/// Concatenation distributes over appending one block.
pub proof fn lemma_concat_push(cs: Seq<Seq<u8>>, b: Seq<u8>)
    ensures
        concat_bytes(cs.push(b)) == concat_bytes(cs) + b,
    decreases cs.len(),
{
    if cs.len() == 0 {
        assert(cs.push(b)[0] == b);
        assert(cs.push(b).drop_first() =~= Seq::<Seq<u8>>::empty());
        assert(concat_bytes(cs.push(b)) == b + concat_bytes(Seq::<Seq<u8>>::empty()));
        assert(b + Seq::<u8>::empty() =~= b);
        assert(concat_bytes(cs) =~= Seq::<u8>::empty());
        assert(concat_bytes(cs) + b =~= b);
    } else {
        assert(cs.push(b)[0] == cs[0]);
        assert(cs.push(b).drop_first() =~= cs.drop_first().push(b));
        lemma_concat_push(cs.drop_first(), b);
        assert(cs[0] + (concat_bytes(cs.drop_first()) + b) =~= (cs[0] + concat_bytes(
            cs.drop_first(),
        )) + b);
    }
}

} // verus!
