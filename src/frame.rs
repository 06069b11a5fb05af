//! Frames: a `u32` big-endian length followed by that many bytes.
use vstd::prelude::*;
use crate::codec::{enc_message, encode, message_fits};
use crate::message::Message;
use crate::wire::{dec_u32, lemma_u32_round_trip, read_u32, u32_bytes, write_u32, CodecError};

verus! {

pub open spec fn concat_all(bs: Seq<Seq<u8>>) -> Seq<u8>
    decreases bs.len(),
{
    if bs.len() == 0 {
        Seq::empty()
    } else {
        concat_all(bs.drop_last()) + bs.last()
    }
}

/// Collects the parts of a frame's body, then packs them behind the length.
pub struct FrameWriter {
    buffers: Vec<Vec<u8>>,
    length: u32,
}

impl View for FrameWriter {
    type V = Seq<u8>;

    /// The body collected so far.
    closed spec fn view(&self) -> Seq<u8> {
        concat_all(self.buffers@.map_values(|b: Vec<u8>| b@))
    }
}

impl FrameWriter {
    pub closed spec fn wf(&self) -> bool {
        self.length as nat == self@.len()
    }

    pub fn new() -> (r: FrameWriter)
        ensures
            r.wf(),
            r@ == Seq::<u8>::empty(),
    {
        let r = FrameWriter { buffers: Vec::new(), length: 0 };
        assert(r.buffers@.map_values(|b: Vec<u8>| b@) =~= Seq::<Seq<u8>>::empty());
        r
    }

    /// A writer holding `buf`; fails where `buf` is longer than a frame can be.
    pub fn from(buf: Vec<u8>) -> (r: Result<FrameWriter, CodecError>)
        ensures
            r is Ok <==> buf@.len() <= u32::MAX,
            r is Err ==> r == Err::<FrameWriter, CodecError>(CodecError::TooLarge),
            r matches Ok(w) ==> w.wf() && w@ == buf@,
    {
        let mut frame = FrameWriter::new();
        match frame.push(buf) {
            Ok(()) => {
                assert(Seq::<u8>::empty() + buf@ =~= buf@);
                Ok(frame)
            },
            Err(e) => Err(e),
        }
    }

    /// Appends `buf` to the body; fails, changing nothing, where the body
    /// would outgrow a `u32` length.
    pub fn push(&mut self, buf: Vec<u8>) -> (r: Result<(), CodecError>)
        requires
            old(self).wf(),
        ensures
            final(self).wf(),
            r is Ok <==> old(self)@.len() + buf@.len() <= u32::MAX,
            r is Ok ==> final(self)@ == old(self)@ + buf@,
            r is Err ==> r == Err::<(), CodecError>(CodecError::TooLarge) && final(self)@ == old(self)@,
    {
        if buf.len() > (u32::MAX - self.length) as usize {
            return Err(CodecError::TooLarge);
        }
        let ghost before = self.buffers@;
        let ghost bv = buf@;
        self.length = self.length + buf.len() as u32;
        self.buffers.push(buf);
        assert(self.buffers@.map_values(|b: Vec<u8>| b@).drop_last() =~= before.map_values(
            |b: Vec<u8>| b@,
        ));
        Ok(())
    }

    /// The frame: the body's length, then the body.
    pub fn pack(&self) -> (r: Vec<u8>)
        requires
            self.wf(),
        ensures
            r@ == u32_bytes(self@.len() as u32) + self@,
    {
        let mut out: Vec<u8> = Vec::new();
        write_u32(&mut out, self.length);
        let ghost bs = self.buffers@.map_values(|b: Vec<u8>| b@);
        let mut i: usize = 0;
        while i < self.buffers.len()
            invariant
                bs == self.buffers@.map_values(|b: Vec<u8>| b@),
                i <= self.buffers@.len(),
                out@ == u32_bytes(self.length) + concat_all(bs.take(i as int)),
            decreases self.buffers@.len() - i,
        {
            let buf = &self.buffers[i];
            let ghost before = out@;
            let mut j: usize = 0;
            while j < buf.len()
                invariant
                    j <= buf@.len(),
                    out@ == before + buf@.take(j as int),
                decreases buf@.len() - j,
            {
                out.push(buf[j]);
                assert(buf@.take(j + 1) =~= buf@.take(j as int).push(buf@[j as int]));
                j = j + 1;
            }
            assert(buf@.take(j as int) =~= buf@);
            assert(bs.take(i + 1).drop_last() =~= bs.take(i as int));
            assert(out@ =~= u32_bytes(self.length) + concat_all(bs.take(i + 1)));
            i = i + 1;
        }
        assert(bs.take(i as int) =~= bs);
        out
    }
}

/// Reads a packed frame in order.
pub struct FrameReader {
    buf: Vec<u8>,
    pos: usize,
}

impl View for FrameReader {
    type V = Seq<u8>;

    /// The bytes not read yet.
    closed spec fn view(&self) -> Seq<u8> {
        self.buf@.skip(self.pos as int)
    }
}

impl FrameReader {
    pub closed spec fn wf(&self) -> bool {
        self.pos <= self.buf@.len()
    }

    /// A reader over the frame that `writer` packs.
    pub fn from(writer: &FrameWriter) -> (r: FrameReader)
        requires
            writer.wf(),
        ensures
            r.wf(),
            r@ == u32_bytes(writer@.len() as u32) + writer@,
    {
        let buf = writer.pack();
        let r = FrameReader { buf, pos: 0 };
        assert(r.buf@.skip(0) =~= r.buf@);
        r
    }

    /// Takes the next `n` bytes; fails, reading nothing, where fewer are left.
    pub fn take(&mut self, n: usize) -> (r: Result<Vec<u8>, CodecError>)
        requires
            old(self).wf(),
        ensures
            final(self).wf(),
            r is Ok <==> n <= old(self)@.len(),
            r matches Ok(b) ==> b@ == old(self)@.take(n as int) && final(self)@ == old(self)@.skip(
                n as int,
            ),
            r is Err ==> r == Err::<Vec<u8>, CodecError>(CodecError::Truncated) && final(self)@ == old(
                self,
            )@,
    {
        if self.buf.len() - self.pos < n {
            return Err(CodecError::Truncated);
        }
        let mut out: Vec<u8> = Vec::new();
        let mut i: usize = 0;
        while i < n
            invariant
                self.wf(),
                *self == *old(self),
                self.buf@.len() - self.pos >= n,
                self.buf@.len() <= usize::MAX,
                i <= n,
                out@ == self.buf@.subrange(self.pos as int, self.pos + i),
            decreases n - i,
        {
            out.push(self.buf[self.pos + i]);
            assert(self.buf@.subrange(self.pos as int, self.pos + i + 1) =~= self.buf@.subrange(
                self.pos as int,
                self.pos + i,
            ).push(self.buf@[self.pos + i]));
            i = i + 1;
        }
        self.pos = self.pos + n;
        assert(out@ =~= old(self)@.take(n as int));
        assert(self@ =~= old(self)@.skip(n as int));
        Ok(out)
    }
}

/// Encodes a message into a whole frame.
pub fn frame_message(m: &Message) -> (r: Result<Vec<u8>, CodecError>)
    ensures
        r is Ok <==> message_fits(m@) && enc_message(m@).len() <= u32::MAX,
        r is Err ==> r == Err::<Vec<u8>, CodecError>(CodecError::TooLarge),
        r matches Ok(b) ==> b@ == u32_bytes(enc_message(m@).len() as u32) + enc_message(m@),
{
    let body = match encode(m) {
        Ok(b) => b,
        Err(e) => return Err(e),
    };
    let writer = match FrameWriter::from(body) {
        Ok(w) => w,
        Err(e) => return Err(e),
    };
    Ok(writer.pack())
}

/// The body length that a frame's four header bytes announce.
pub fn frame_length(header: &[u8]) -> (r: Result<u32, CodecError>)
    ensures
        match dec_u32(header@) {
            Ok((n, _)) => r == Ok::<u32, CodecError>(n),
            Err(e) => r == Err::<u32, CodecError>(e),
        },
{
    match read_u32(header, 0) {
        Ok((n, _)) => Ok(n),
        Err(e) => Err(e),
    }
}

/// The length announced by a frame's header is that of its body.
pub proof fn law_frame_length(body: Seq<u8>)
    requires
        body.len() <= u32::MAX,
    ensures
        dec_u32(u32_bytes(body.len() as u32) + body) == Ok::<(u32, Seq<u8>), CodecError>(
            (body.len() as u32, body),
        ),
{
    lemma_u32_round_trip(body.len() as u32, body);
}

} // verus!
