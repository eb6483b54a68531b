//! Where bytes come from: a source hands out its bytes in order, as many at a
//! time as it pleases, and a chain of sources is a source again.

use crate::error::{Error, ErrorView};
use vstd::prelude::*;
use vstd::slice::slice_subrange;

verus! {

/// Something that bytes can be read from, front to back.
pub trait ByteSource {
    /// The bytes that are still to come.
    spec fn remaining(&self) -> Seq<u8>;

    /// Moves bytes from the front of the source to the front of `buf` and
    /// returns how many. Zero means that `buf` is empty or the source is at
    /// its end.
    fn read(&mut self, buf: &mut [u8]) -> (n: usize)
        ensures
            n <= old(buf)@.len(),
            n <= old(self).remaining().len(),
            n == 0 ==> old(buf)@.len() == 0 || old(self).remaining().len() == 0,
            final(self).remaining() == old(self).remaining().skip(n as int),
            final(buf)@ == old(self).remaining().take(n as int) + old(buf)@.skip(n as int),
    ;

    /// Fills `buf` from the source. Where the source ends first, all of it is
    /// taken and the call fails.
    fn read_exact(&mut self, buf: &mut [u8]) -> (r: Result<(), Error>)
        ensures
            filled(old(self).remaining(), old(buf)@, final(buf)@),
            final(self).remaining() == after_fill(old(self).remaining(), old(buf)@.len()),
            r is Ok <==> old(buf)@.len() <= old(self).remaining().len(),
            r is Err ==> r->Err_0@ == ErrorView::UnexpectedEoF,
    {
        let ghost source = self.remaining();
        let ghost before = buf@;
        let total = buf.len();
        let mut done: usize = 0;
        while done < total
            invariant
                source == old(self).remaining(),
                before == old(buf)@,
                total == before.len(),
                done <= total,
                done <= source.len(),
                buf@ == source.take(done as int) + before.skip(done as int),
                self.remaining() == source.skip(done as int),
            decreases total - done,
        {
            let (_, rest) = buf.split_at_mut(done);
            let n = self.read(rest);
            if n == 0 {
                assert(buf@ =~= source.take(done as int) + before.skip(done as int));
                assert(source.skip(done as int).len() == 0);
                assert(source.take(done as int) =~= source);
                return Err(Error::UnexpectedEoF);
            }
            assert(buf@ =~= source.take(done + n) + before.skip(done + n));
            assert(source.skip(done as int).skip(n as int) =~= source.skip(done + n));
            done = done + n;
        }
        Ok(())
    }
}

/// What a buffer holds after it was filled from `source` as far as that went.
pub open spec fn filled(source: Seq<u8>, before: Seq<u8>, after: Seq<u8>) -> bool {
    if before.len() <= source.len() {
        after == source.take(before.len() as int)
    } else {
        after == source + before.skip(source.len() as int)
    }
}

/// What is left of `source` after a buffer of `want` bytes was filled from it.
pub open spec fn after_fill(source: Seq<u8>, want: nat) -> Seq<u8> {
    if want <= source.len() {
        source.skip(want as int)
    } else {
        Seq::empty()
    }
}

impl<'a> ByteSource for &'a [u8] {
    open spec fn remaining(&self) -> Seq<u8> {
        (*self)@
    }

    /// Hands out as many bytes as `buf` takes and the slice has.
    fn read(&mut self, buf: &mut [u8]) -> (n: usize)
        ensures
            n == old(buf)@.len() || n == old(self).remaining().len(),
    {
        let source: &'a [u8] = *self;
        let ghost before = buf@;
        let n: usize = if buf.len() < source.len() {
            buf.len()
        } else {
            source.len()
        };
        let mut i: usize = 0;
        while i < n
            invariant
                i <= n,
                n <= before.len(),
                n <= source@.len(),
                buf@ == source@.take(i as int) + before.skip(i as int),
            decreases n - i,
        {
            buf[i] = source[i];
            assert(buf@ =~= source@.take(i + 1) + before.skip(i + 1));
            i = i + 1;
        }
        *self = slice_subrange(source, n, source.len());
        n
    }
}

/// A source that owns its bytes, for data that has been read into memory as
/// a whole.
pub struct Buffer {
    bytes: Vec<u8>,
    position: usize,
}

impl Buffer {
    /// A source that hands out `bytes` from their start.
    pub fn new(bytes: Vec<u8>) -> (buffer: Self)
        ensures
            buffer.remaining() == bytes@,
    {
        let buffer = Buffer { bytes, position: 0 };
        assert(buffer.bytes@.skip(0) =~= buffer.bytes@);
        buffer
    }
}

impl ByteSource for Buffer {
    closed spec fn remaining(&self) -> Seq<u8> {
        if self.position <= self.bytes@.len() {
            self.bytes@.skip(self.position as int)
        } else {
            Seq::empty()
        }
    }

    /// Hands out as many bytes as `buf` takes and the buffer has left.
    fn read(&mut self, buf: &mut [u8]) -> (n: usize)
        ensures
            n == old(buf)@.len() || n == old(self).remaining().len(),
    {
        if self.position >= self.bytes.len() {
            assert(self.remaining().skip(0) =~= self.remaining());
            assert(buf@ =~= self.remaining().take(0) + buf@.skip(0));
            return 0;
        }
        let mut rest = slice_subrange(self.bytes.as_slice(), self.position, self.bytes.len());
        assert(rest@ =~= self.remaining());
        let n = rest.read(buf);
        self.position = self.position + n;
        assert(self.remaining() =~= old(self).remaining().skip(n as int));
        n
    }
}

/// The bytes of a row of sources, one after the other.
pub open spec fn chained<S: ByteSource>(sources: Seq<S>) -> Seq<u8>
    decreases sources.len(),
{
    if sources.len() == 0 {
        Seq::empty()
    } else {
        sources.first().remaining() + chained(sources.drop_first())
    }
}

/// The bytes of the first source of a row that is not at its end.
pub open spec fn first_open<S: ByteSource>(sources: Seq<S>) -> Seq<u8>
    decreases sources.len(),
{
    if sources.len() == 0 {
        Seq::empty()
    } else if sources.first().remaining().len() > 0 {
        sources.first().remaining()
    } else {
        first_open(sources.drop_first())
    }
}

/// A source more at the end of a row adds its bytes at the end.
pub proof fn lemma_chained_push<S: ByteSource>(sources: Seq<S>, last: S)
    ensures
        chained(sources.push(last)) == chained(sources) + last.remaining(),
    decreases sources.len(),
{
    if sources.len() == 0 {
        let one = sources.push(last);
        assert(one.first() == last);
        assert(one.drop_first() =~= sources);
        assert(chained(one.drop_first()) =~= Seq::<u8>::empty());
        assert(chained(one) =~= last.remaining());
    } else {
        assert(sources.push(last).drop_first() =~= sources.drop_first().push(last));
        lemma_chained_push(sources.drop_first(), last);
        assert(chained(sources.push(last)) =~= chained(sources) + last.remaining());
    }
}

/// A row of sources read as one: when a source is at its end the next one
/// takes over, and no byte is left out or read twice.
pub struct MultiChain<S: ByteSource> {
    sources: Vec<S>,
    position: usize,
}

impl<S: ByteSource> MultiChain<S> {
    /// The bytes that the source has left from which the chain reads next.
    pub closed spec fn current(&self) -> Seq<u8> {
        if self.position <= self.sources@.len() {
            first_open(self.sources@.skip(self.position as int))
        } else {
            Seq::empty()
        }
    }

    /// A chain that reads `sources` in their order.
    pub fn new(sources: Vec<S>) -> (chain: Self)
        ensures
            chain.remaining() == chained(sources@),
            chain.current() == first_open(sources@),
    {
        let chain = MultiChain { sources, position: 0 };
        assert(chain.sources@.skip(0) =~= chain.sources@);
        chain
    }
}

impl<S: ByteSource> ByteSource for MultiChain<S> {
    closed spec fn remaining(&self) -> Seq<u8> {
        if self.position <= self.sources@.len() {
            chained(self.sources@.skip(self.position as int))
        } else {
            Seq::empty()
        }
    }

    /// Reads from the first source that is not at its end, and from no other.
    fn read(&mut self, buf: &mut [u8]) -> (n: usize)
        ensures
            n <= old(self).current().len(),
    {
        if buf.len() == 0 {
            assert(self.remaining().skip(0) =~= self.remaining());
            assert(buf@ =~= self.remaining().take(0) + buf@.skip(0));
            return 0;
        }
        while self.position < self.sources.len()
            invariant
                self.remaining() == old(self).remaining(),
                self.current() == old(self).current(),
                buf@ == old(buf)@,
                buf@.len() > 0,
            decreases self.sources@.len() - self.position,
        {
            let ghost before = self.sources@;
            let ghost at = self.position as int;
            let ghost head = before[at].remaining();
            let ghost tail = chained(before.skip(at + 1));
            assert(before.skip(at).drop_first() =~= before.skip(at + 1));
            assert(self.remaining() == head + tail);
            let n = self.sources[self.position].read(buf);
            proof {
                let after = self.sources@;
                assert(after.skip(at).drop_first() =~= before.skip(at + 1));
                assert(after.skip(at + 1) =~= before.skip(at + 1));
                assert(self.remaining() == head.skip(n as int) + tail);
            }
            if n > 0 {
                assert((head + tail).skip(n as int) =~= head.skip(n as int) + tail);
                assert((head + tail).take(n as int) =~= head.take(n as int));
                return n;
            }
            assert(head.skip(0) + tail =~= head + tail);
            assert(head + tail =~= tail);
            assert(buf@ =~= old(buf)@);
            self.position = self.position + 1;
        }
        assert(self.remaining().len() == 0);
        assert(self.remaining().skip(0) =~= self.remaining());
        assert(buf@ =~= self.remaining().take(0) + buf@.skip(0));
        0
    }
}

/// Moves all that is left of `from` to the end of `to`.
pub fn copy_remaining<S: ByteSource>(from: &mut S, to: &mut Vec<u8>)
    ensures
        final(to)@ == old(to)@ + old(from).remaining(),
        final(from).remaining().len() == 0,
{
    let ghost source = from.remaining();
    let ghost start = to@;
    let mut chunk: Vec<u8> = vec![0u8; 4096];
    let ghost mut moved: int = 0;
    loop
        invariant
            chunk@.len() == 4096,
            0 <= moved <= source.len(),
            from.remaining() == source.skip(moved),
            to@ == start + source.take(moved),
        ensures
            to@ == start + source,
            from.remaining().len() == 0,
        decreases source.len() - moved,
    {
        let n = from.read(chunk.as_mut_slice());
        if n == 0 {
            assert(source.take(moved) =~= source);
            break ;
        }
        let part = slice_subrange(chunk.as_slice(), 0, n);
        to.extend_from_slice(part);
        proof {
            assert(part@ =~= source.skip(moved).take(n as int));
            assert(source.take(moved) + source.skip(moved).take(n as int) =~= source.take(
                moved + n,
            ));
            assert(source.skip(moved).skip(n as int) =~= source.skip(moved + n));
            moved = moved + n;
        }
    }
}

} // verus!
