//! The content of compressed pool files: zlib frames with a rewritten first
//! byte, one after the other.
use vstd::prelude::*;
use vstd::slice::slice_subrange;
use crate::error::PoolError;

verus! {

/// What the zlib decoder makes of `input`: the bytes of the stream that
/// starts there and the number of bytes of `input` that the stream takes, or
/// nothing where `input` does not start with a whole zlib stream.
pub uninterp spec fn zlib_frame(input: Seq<u8>) -> Option<(Seq<u8>, nat)>;

/// `flate2::bufread::ZlibDecoder` reads one zlib stream from the start of
/// its input, here the byte `first` and then the bytes of `rest`, up to the
/// end of that stream, and counts in `total_in` the bytes of the input that
/// it took. What it gives depends on the input alone.
#[verifier::external_body]
fn inflate_frame(first: u8, rest: &[u8]) -> (r: Option<(Vec<u8>, usize)>)
    ensures
        match zlib_frame(seq![first] + rest@) {
            Some((payload, used)) => r matches Some((v, n)) && v@ == payload && n == used,
            None => r is None,
        },
{
    let head = [first];
    let mut decoder = flate2::bufread::ZlibDecoder::new(std::io::Read::chain(&head[..], rest));
    let mut out: Vec<u8> = Vec::new();
    match std::io::Read::read_to_end(&mut decoder, &mut out) {
        Ok(_) => Some((out, decoder.total_in() as usize)),
        Err(_) => None,
    }
}

/// The first byte of a frame as the pool stores it, in place of the first
/// byte of a zlib stream.
pub open spec fn is_stored_header(b: u8) -> bool {
    b == 0xd6 || b == 0xd7
}

/// The byte that marks the end of the frames.
pub const END_OF_FRAMES: u8 = 0xb3;

/// The first byte of a zlib stream.
pub const ZLIB_HEADER: u8 = 0x78;

/// The bytes of a frame as the zlib decoder has to see them: the first byte
/// put back to the first byte of a zlib stream.
pub open spec fn frame_input(s: Seq<u8>) -> Seq<u8> {
    if is_stored_header(s[0]) {
        seq![ZLIB_HEADER] + s.skip(1)
    } else {
        seq![s[0]] + s.skip(1)
    }
}

/// Whether the frames end at the start of `s`: nothing is left, or the end
/// mark stands there.
pub open spec fn at_end(s: Seq<u8>) -> bool {
    s.len() == 0 || s[0] == END_OF_FRAMES
}

/// What the frame at the start of `s` holds and how many bytes it takes, or
/// nothing where no frame can be read there.
pub open spec fn first_frame(s: Seq<u8>) -> Option<(Seq<u8>, nat)> {
    match zlib_frame(frame_input(s)) {
        Some((payload, used)) => if 1 <= used <= s.len() {
            Some((payload, used))
        } else {
            None
        },
        None => None,
    }
}

/// The bytes of the frames of `s` that can be read, one frame after the
/// other, and whether reading stopped at a frame that cannot be read.
pub open spec fn unpacked(s: Seq<u8>) -> (Seq<u8>, bool)
    decreases s.len(),
{
    if at_end(s) {
        (Seq::<u8>::empty(), false)
    } else {
        match first_frame(s) {
            Some((payload, used)) => (
                payload + unpacked(s.skip(used as int)).0,
                unpacked(s.skip(used as int)).1,
            ),
            None => (Seq::<u8>::empty(), true),
        }
    }
}

/// Whether there is a limit and at least as many bytes as it asks for.
pub open spec fn within_limit(limit: Option<usize>, len: nat) -> bool {
    limit matches Some(size) && size <= len
}

/// A reader of the content of a compressed pool file: frames that follow one
/// another, read as one stream of bytes.
pub struct BackupPCReader {
    input: Vec<u8>,
    next: usize,
    pending: Vec<u8>,
    served: usize,
    given: Ghost<nat>,
}

impl BackupPCReader {
    /// The reader holds together: what it has read and what is still to
    /// come make up its content.
    pub closed spec fn wf(&self) -> bool {
        &&& self.next <= self.input.len()
        &&& self.served <= self.pending.len()
        &&& self.given@ <= unpacked(self.input@).0.len()
        &&& unpacked(self.input@).0.skip(self.given@ as int) == self.pending@.skip(
            self.served as int,
        ) + unpacked(self.input@.skip(self.next as int)).0
        &&& unpacked(self.input@.skip(self.next as int)).1 == unpacked(self.input@).1
    }

    /// The bytes of the frames that can be read, from the first frame on.
    pub closed spec fn content(&self) -> Seq<u8> {
        unpacked(self.input@).0
    }

    /// Whether the content ends at a frame that cannot be read.
    pub closed spec fn broken(&self) -> bool {
        unpacked(self.input@).1
    }

    /// The number of bytes of the content that have been read.
    pub closed spec fn position(&self) -> nat {
        self.given@
    }

    /// The bytes of the content that are still to come.
    pub open spec fn upcoming(&self) -> Seq<u8> {
        self.content().skip(self.position() as int)
    }

    /// A reader at the start of the content of the file `data`.
    pub fn new(data: Vec<u8>) -> (r: Self)
        ensures
            r.wf(),
            r.content() == unpacked(data@).0,
            r.broken() == unpacked(data@).1,
            r.position() == 0,
    {
        let ghost all = unpacked(data@).0;
        assert(data@.skip(0) == data@);
        assert(all.skip(0) == Seq::<u8>::empty().skip(0) + all);
        BackupPCReader { input: data, next: 0, pending: Vec::new(), served: 0, given: Ghost(0) }
    }

    /// Goes back to the start of the content.
    pub fn rewind(&mut self)
        requires
            old(self).wf(),
        ensures
            final(self).wf(),
            final(self).content() == old(self).content(),
            final(self).broken() == old(self).broken(),
            final(self).position() == 0,
    {
        let ghost all = unpacked(self.input@).0;
        assert(self.input@.skip(0) == self.input@);
        assert(all.skip(0) == Seq::<u8>::empty().skip(0) + all);
        self.served = 0;
        self.pending = Vec::new();
        self.next = 0;
        self.given = Ghost(0);
    }

    /// Decodes the next frame, where the bytes decoded before are used up.
    /// Returns whether bytes may follow: not at the end of the frames, nor
    /// at a frame that cannot be read.
    fn refill(&mut self) -> (r: Result<bool, PoolError>)
        requires
            old(self).wf(),
            old(self).served == old(self).pending.len(),
        ensures
            final(self).wf(),
            final(self).input == old(self).input,
            final(self).given == old(self).given,
            final(self).served == 0,
            match r {
                Ok(more) => if more {
                    final(self).input.len() - final(self).next < old(self).input.len() - old(self).next
                } else {
                    final(self).pending.len() == 0 && old(self).upcoming().len() == 0 && !old(self).broken()
                },
                Err(e) => e == PoolError::CorruptData && old(self).broken()
                    && old(self).upcoming().len() == 0 && final(self).pending.len() == 0,
            },
    {
        let ghost s = self.input@.skip(self.next as int);
        assert(self.pending@.skip(self.served as int) == Seq::<u8>::empty());
        self.served = 0;
        self.pending = Vec::new();
        assert(self.pending@.skip(0) == Seq::<u8>::empty());
        if self.next == self.input.len() {
            return Ok(false);
        }
        let first = self.input[self.next];
        assert(first == s[0]);
        if first == END_OF_FRAMES {
            return Ok(false);
        }
        let header = if first == 0xd6 || first == 0xd7 {
            ZLIB_HEADER
        } else {
            first
        };
        let rest = slice_subrange(self.input.as_slice(), self.next + 1, self.input.len());
        assert(seq![header] + rest@ == frame_input(s));
        match inflate_frame(header, rest) {
            Some((payload, used)) => {
                if used == 0 || used > self.input.len() - self.next {
                    return Err(PoolError::CorruptData);
                }
                assert(self.input@.skip(self.next + used) == s.skip(used as int));
                assert(payload@.skip(0) == payload@);
                self.pending = payload;
                self.next = self.next + used;
                Ok(true)
            },
            None => Err(PoolError::CorruptData),
        }
    }

    /// Reads the bytes that are still to come, up to `limit` of them where
    /// there is a limit; frames are decoded as far as needed.
    fn take(&mut self, limit: Option<usize>) -> (r: Result<Vec<u8>, PoolError>)
        requires
            old(self).wf(),
        ensures
            final(self).wf(),
            final(self).position() <= final(self).content().len(),
            final(self).content() == old(self).content(),
            final(self).broken() == old(self).broken(),
            within_limit(limit, old(self).upcoming().len()) ==> (r matches Ok(v)
                && v@ == old(self).upcoming().take(limit.unwrap() as int)
                && final(self).position() == old(self).position() + limit.unwrap()),
            !within_limit(limit, old(self).upcoming().len()) ==> {
                &&& final(self).position() == old(self).content().len()
                &&& !old(self).broken() ==> (r matches Ok(v) && v@ == old(self).upcoming())
                &&& old(self).broken() ==> r == Err::<Vec<u8>, PoolError>(PoolError::CorruptData)
            },
    {
        let ghost all = self.upcoming();
        let ghost start = self.position();
        let mut out: Vec<u8> = Vec::new();
        assert(all.take(0) == Seq::<u8>::empty());
        loop
            invariant
                limit matches Some(size) ==> out.len() <= size,
                out.len() <= all.len(),
                out@ == all.take(out.len() as int),
                self.wf(),
                self.position() == start + out.len(),
                self.input == old(self).input,
                all == old(self).upcoming(),
                start == old(self).position(),
                start <= old(self).content().len(),
            decreases self.input.len() - self.next, self.pending.len() - self.served,
        {
            match limit {
                Some(size) => {
                    if out.len() == size {
                        return Ok(out);
                    }
                },
                None => {},
            }
            if self.served < self.pending.len() {
                let ghost coming = self.upcoming();
                assert(coming == all.skip(out.len() as int));
                assert(self.pending@.skip(self.served as int).len() >= 1);
                assert(coming[0] == self.pending@[self.served as int]);
                out.push(self.pending[self.served]);
                assert(self.pending@.skip(self.served + 1) == self.pending@.skip(
                    self.served as int,
                ).skip(1));
                assert(unpacked(self.input@).0.skip(self.given@ as int + 1) == unpacked(
                    self.input@,
                ).0.skip(self.given@ as int).skip(1));
                assert((self.pending@.skip(self.served as int) + unpacked(
                    self.input@.skip(self.next as int),
                ).0).skip(1) == self.pending@.skip(self.served as int).skip(1) + unpacked(
                    self.input@.skip(self.next as int),
                ).0);
                self.served = self.served + 1;
                self.given = Ghost((self.given@ + 1) as nat);
                assert(out@ == all.take(out.len() as int));
            } else {
                match self.refill() {
                    Ok(more) => {
                        if !more {
                            assert(all.take(out.len() as int) == all);
                            return Ok(out);
                        }
                    },
                    Err(e) => {
                        return Err(e);
                    },
                }
            }
        }
    }

    /// Reads the next `size` bytes of the content, or all that are still to
    /// come where they are fewer; frames are decoded as far as needed.
    /// Where the bytes would have to come from a frame that cannot be read,
    /// it fails with `CorruptData`.
    pub fn read(&mut self, size: usize) -> (r: Result<Vec<u8>, PoolError>)
        requires
            old(self).wf(),
        ensures
            final(self).wf(),
            final(self).position() <= final(self).content().len(),
            final(self).content() == old(self).content(),
            final(self).broken() == old(self).broken(),
            size <= old(self).upcoming().len() ==> (r matches Ok(v)
                && v@ == old(self).upcoming().take(size as int)
                && final(self).position() == old(self).position() + size),
            size > old(self).upcoming().len() ==> final(self).position() == old(self).content().len(),
            size > old(self).upcoming().len() && !old(self).broken() ==> (r matches Ok(v) && v@
                == old(self).upcoming()),
            size > old(self).upcoming().len() && old(self).broken() ==> r == Err::<
                Vec<u8>,
                PoolError,
            >(PoolError::CorruptData),
    {
        self.take(Some(size))
    }

    /// Reads all that is still to come. Where a frame cannot be read it
    /// fails with `CorruptData`.
    pub fn read_to_end(&mut self) -> (r: Result<Vec<u8>, PoolError>)
        requires
            old(self).wf(),
        ensures
            final(self).wf(),
            final(self).content() == old(self).content(),
            final(self).broken() == old(self).broken(),
            final(self).position() == old(self).content().len(),
            !old(self).broken() ==> (r matches Ok(v) && v@ == old(self).upcoming()),
            old(self).broken() ==> r == Err::<Vec<u8>, PoolError>(PoolError::CorruptData),
    {
        self.take(None)
    }
}

/// The content of a compressed pool file: the bytes of all its frames. It
/// fails with `CorruptData` where a frame cannot be read.
pub fn decompress(data: Vec<u8>) -> (r: Result<Vec<u8>, PoolError>)
    ensures
        !unpacked(data@).1 ==> (r matches Ok(v) && v@ == unpacked(data@).0),
        unpacked(data@).1 ==> r == Err::<Vec<u8>, PoolError>(PoolError::CorruptData),
{
    let mut reader = BackupPCReader::new(data);
    assert(reader.upcoming() == reader.content());
    reader.read_to_end()
}

} // verus!
