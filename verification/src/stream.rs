//! Streams of the content of files, and reads at offsets on streams that
//! only go forward.
use vstd::prelude::*;
use crate::compress::{unpacked, BackupPCReader};
use crate::error::PoolError;

verus! {

/// The number of bytes that are read at once to pass over content.
pub const SKIP_CHUNK: usize = 32 * 1024;

/// A reader of the content of a plain pool file.
pub struct PlainReader {
    data: Vec<u8>,
    pos: usize,
}

impl PlainReader {
    /// The position is within the content.
    pub closed spec fn wf(&self) -> bool {
        self.pos <= self.data.len()
    }

    /// The content of the file.
    pub closed spec fn content(&self) -> Seq<u8> {
        self.data@
    }

    /// The number of bytes of the content that have been read.
    pub closed spec fn position(&self) -> nat {
        self.pos as nat
    }

    /// A reader at the start of `data`.
    pub fn new(data: Vec<u8>) -> (r: Self)
        ensures
            r.wf(),
            r.content() == data@,
            r.position() == 0,
    {
        PlainReader { data, pos: 0 }
    }

    /// Goes back to the start of the content.
    pub fn rewind(&mut self)
        ensures
            final(self).wf(),
            final(self).content() == old(self).content(),
            final(self).position() == 0,
    {
        self.pos = 0;
    }

    /// The number of bytes that are left.
    pub fn remaining(&self) -> (n: usize)
        requires
            self.wf(),
        ensures
            n == self.content().len() - self.position(),
    {
        self.data.len() - self.pos
    }

    /// Reads the next `size` bytes, or all that are left where they are
    /// fewer.
    pub fn read(&mut self, size: usize) -> (v: Vec<u8>)
        requires
            old(self).wf(),
        ensures
            final(self).wf(),
            final(self).content() == old(self).content(),
            final(self).position() == old(self).position() + v@.len(),
            v@ == old(self).content().skip(old(self).position() as int).take(
                if size <= old(self).content().len() - old(self).position() {
                    size as int
                } else {
                    old(self).content().len() - old(self).position()
                },
            ),
    {
        let left = self.data.len() - self.pos;
        let n = if size <= left {
            size
        } else {
            left
        };
        let mut out: Vec<u8> = Vec::new();
        let mut i: usize = 0;
        while i < n
            invariant
                i <= n,
                self.pos + n <= self.data.len(),
                out@ == self.data@.subrange(self.pos as int, self.pos + i),
            decreases n - i,
        {
            out.push(self.data[self.pos + i]);
            i += 1;
        }
        assert(out@ == self.data@.skip(self.pos as int).take(n as int));
        self.pos = self.pos + n;
        out
    }
}

/// A stream of the content of a file of a backup.
pub enum PoolStream {
    /// The file is empty.
    Empty,
    /// The content of a plain pool file.
    Plain(PlainReader),
    /// The content of a compressed pool file.
    Compressed(BackupPCReader),
}

impl PoolStream {
    /// The stream holds together.
    pub open spec fn wf(&self) -> bool {
        match self {
            PoolStream::Empty => true,
            PoolStream::Plain(r) => r.wf(),
            PoolStream::Compressed(r) => r.wf() && r.position() <= r.content().len(),
        }
    }

    /// The bytes of the stream that can be read, from its start.
    pub open spec fn content(&self) -> Seq<u8> {
        match self {
            PoolStream::Empty => Seq::<u8>::empty(),
            PoolStream::Plain(r) => r.content(),
            PoolStream::Compressed(r) => r.content(),
        }
    }

    /// Whether the content ends where the stream cannot be read further.
    pub open spec fn broken(&self) -> bool {
        match self {
            PoolStream::Empty => false,
            PoolStream::Plain(_) => false,
            PoolStream::Compressed(r) => r.broken(),
        }
    }

    /// The number of bytes of the content that have been read.
    pub open spec fn position(&self) -> nat {
        match self {
            PoolStream::Empty => 0,
            PoolStream::Plain(r) => r.position(),
            PoolStream::Compressed(r) => r.position(),
        }
    }

    /// The bytes of the content that are still to come.
    pub open spec fn upcoming(&self) -> Seq<u8> {
        self.content().skip(self.position() as int)
    }

    /// The stream of a file without content.
    pub fn empty() -> (s: Self)
        ensures
            s.wf(),
            s.content().len() == 0,
            !s.broken(),
            s.position() == 0,
    {
        PoolStream::Empty
    }

    /// The stream of the pool file `data`, which is compressed or not.
    pub fn open(data: Vec<u8>, is_compressed: bool) -> (s: Self)
        ensures
            s.wf(),
            s.position() == 0,
            !is_compressed ==> s.content() == data@ && !s.broken(),
            is_compressed ==> s.content() == unpacked(data@).0 && s.broken() == unpacked(data@).1,
    {
        if is_compressed {
            PoolStream::Compressed(BackupPCReader::new(data))
        } else {
            PoolStream::Plain(PlainReader::new(data))
        }
    }

    /// Goes back to the start of the content.
    pub fn rewind(&mut self)
        requires
            old(self).wf(),
        ensures
            final(self).wf(),
            final(self).content() == old(self).content(),
            final(self).broken() == old(self).broken(),
            final(self).position() == 0,
    {
        match self {
            PoolStream::Empty => {},
            PoolStream::Plain(r) => {
                r.rewind();
            },
            PoolStream::Compressed(r) => {
                r.rewind();
            },
        }
    }

    /// Reads the next `size` bytes of the content, or all that are still to
    /// come where they are fewer. Where the bytes would have to come from
    /// where the stream cannot be read, it fails with `CorruptData`.
    pub fn read(&mut self, size: usize) -> (r: Result<Vec<u8>, PoolError>)
        requires
            old(self).wf(),
        ensures
            final(self).wf(),
            final(self).content() == old(self).content(),
            final(self).broken() == old(self).broken(),
            size <= old(self).upcoming().len() ==> (r matches Ok(v)
                && v@ == old(self).upcoming().take(size as int)
                && final(self).position() == old(self).position() + size),
            size > old(self).upcoming().len() ==> final(self).position() == old(self).content().len(),
            size > old(self).upcoming().len() && !old(self).broken() ==> (r matches Ok(v) && v@
                == old(self).upcoming()),
            size > old(self).upcoming().len() && old(self).broken() ==> r == Err::<
                Vec<u8>,
                PoolError,
            >(PoolError::CorruptData),
    {
        match self {
            PoolStream::Empty => {
                let v: Vec<u8> = Vec::new();
                assert(Seq::<u8>::empty().skip(0).take(0) == Seq::<u8>::empty());
                assert(Seq::<u8>::empty().skip(0) == Seq::<u8>::empty());
                Ok(v)
            },
            PoolStream::Plain(r) => {
                let ghost coming = r.content().skip(r.position() as int);
                let v = r.read(size);
                assert(coming.take(coming.len() as int) == coming);
                Ok(v)
            },
            PoolStream::Compressed(r) => r.read(size),
        }
    }
}

impl PoolStream {
    /// Reads all that is still to come. Where the stream cannot be read up
    /// to its end it fails with `CorruptData`.
    pub fn read_to_end(&mut self) -> (r: Result<Vec<u8>, PoolError>)
        requires
            old(self).wf(),
        ensures
            final(self).wf(),
            final(self).content() == old(self).content(),
            final(self).broken() == old(self).broken(),
            final(self).position() == old(self).content().len(),
            !old(self).broken() ==> (r matches Ok(v) && v@ == old(self).upcoming()),
            old(self).broken() ==> r == Err::<Vec<u8>, PoolError>(PoolError::CorruptData),
    {
        match self {
            PoolStream::Empty => {
                assert(Seq::<u8>::empty().skip(0) == Seq::<u8>::empty());
                Ok(Vec::new())
            },
            PoolStream::Plain(r) => {
                let ghost coming = r.content().skip(r.position() as int);
                let left = r.remaining();
                let v = r.read(left);
                assert(coming.take(coming.len() as int) == coming);
                Ok(v)
            },
            PoolStream::Compressed(r) => r.read_to_end(),
        }
    }
}

/// The first byte of a read at `offset`: a negative offset reads from the
/// start.
pub open spec fn read_start(offset: i64) -> nat {
    if offset < 0 {
        0
    } else {
        offset as nat
    }
}

/// The smaller of two numbers.
pub open spec fn at_most(a: nat, b: nat) -> nat {
    if a <= b {
        a
    } else {
        b
    }
}

/// What a read of `size` bytes at `offset` gives of a stream: the bytes of
/// the content from the offset on, as far as there are any. Where the read
/// needs bytes from where the stream cannot be read, it fails with
/// `CorruptData`; where its end is no offset, with `Overflow`.
pub open spec fn expected_read(content: Seq<u8>, broken: bool, offset: i64, size: u32) -> Result<
    Seq<u8>,
    PoolError,
> {
    let start = read_start(offset);
    if start + size > i64::MAX {
        Err(PoolError::Overflow)
    } else if broken && start + size > content.len() {
        Err(PoolError::CorruptData)
    } else {
        Ok(
            content.subrange(
                at_most(start, content.len()) as int,
                at_most(start + size as nat, content.len()) as int,
            ),
        )
    }
}

/// A file that has been opened: the stream of its content and the offset
/// that the stream has been read up to.
pub struct OpenedFile {
    pub offset: i64,
    pub reader: PoolStream,
}

impl OpenedFile {
    /// The stream stands at the offset, or at the end of its content where
    /// the offset lies behind it.
    pub open spec fn wf(&self) -> bool {
        &&& self.reader.wf()
        &&& self.offset >= 0
        &&& self.reader.position() == at_most(self.offset as nat, self.reader.content().len())
        &&& self.reader.broken() ==> self.offset <= self.reader.content().len()
    }

    /// A file opened on a stream that stands at its start.
    pub fn new(reader: PoolStream) -> (f: Self)
        requires
            reader.wf(),
            reader.position() == 0,
        ensures
            f.wf(),
            f.offset == 0,
            f.reader == reader,
    {
        OpenedFile { offset: 0, reader }
    }

    /// Passes over content up to `target`, or to the end of the content
    /// where that comes first.
    fn skip_to(&mut self, target: i64) -> (r: Result<(), PoolError>)
        requires
            old(self).wf(),
            target >= old(self).offset,
        ensures
            final(self).wf(),
            final(self).reader.content() == old(self).reader.content(),
            final(self).reader.broken() == old(self).reader.broken(),
            r is Err <==> old(self).reader.broken() && target > old(self).reader.content().len(),
            r is Ok ==> final(self).offset == target,
            r matches Err(e) ==> e == PoolError::CorruptData && final(self).offset == 0,
    {
        let ghost len = self.reader.content().len();
        let mut remaining: i64 = target - self.offset;
        let ghost mut reached: nat = self.offset as nat;
        while remaining > 0
            invariant
                self.reader.wf(),
                self.reader.content() == old(self).reader.content(),
                self.reader.broken() == old(self).reader.broken(),
                len == self.reader.content().len(),
                0 <= remaining,
                reached + remaining == target,
                self.offset == old(self).offset,
                self.offset >= 0,
                self.reader.position() == at_most(reached, len),
                self.reader.broken() ==> reached <= len,
            decreases remaining,
        {
            let to_read: usize = if remaining > SKIP_CHUNK as i64 {
                SKIP_CHUNK
            } else {
                remaining as usize
            };
            match self.reader.read(to_read) {
                Ok(chunk) => {
                    if chunk.len() == 0 {
                        proof {
                            reached = target as nat;
                        }
                        remaining = 0;
                    } else {
                        proof {
                            reached = reached + chunk.len() as nat;
                        }
                        remaining = remaining - chunk.len() as i64;
                    }
                },
                Err(e) => {
                    self.reader.rewind();
                    self.offset = 0;
                    return Err(e);
                },
            }
        }
        self.offset = target;
        Ok(())
    }

    /// Reads up to `size` bytes of the content from `offset` on. The stream
    /// only goes forward: for a place behind the one it stands at it starts
    /// anew, and it passes over what lies before the place. Afterwards the
    /// file stands behind the bytes it has given; after a read that failed
    /// on the stream it stands at the start.
    pub fn read_at(&mut self, offset: i64, size: u32) -> (r: Result<Vec<u8>, PoolError>)
        requires
            old(self).wf(),
        ensures
            final(self).wf(),
            final(self).reader.content() == old(self).reader.content(),
            final(self).reader.broken() == old(self).reader.broken(),
            match expected_read(
                old(self).reader.content(),
                old(self).reader.broken(),
                offset,
                size,
            ) {
                Ok(bytes) => r matches Ok(v) && v@ == bytes,
                Err(e) => r == Err::<Vec<u8>, PoolError>(e),
            },
            read_start(offset) + size > i64::MAX ==> *final(self) == *old(self),
            r matches Ok(v) ==> final(self).offset == read_start(offset) + v@.len(),
            r == Err::<Vec<u8>, PoolError>(PoolError::CorruptData) ==> final(self).offset == 0,
    {
        let start: i64 = if offset < 0 {
            0
        } else {
            offset
        };
        if start > i64::MAX - size as i64 {
            return Err(PoolError::Overflow);
        }
        let ghost content = self.reader.content();
        if start < self.offset {
            self.reader.rewind();
            self.offset = 0;
        }
        if start > self.offset {
            match self.skip_to(start) {
                Ok(()) => {},
                Err(e) => {
                    return Err(e);
                },
            }
        }
        assert(self.offset == start);
        match self.reader.read(size as usize) {
            Ok(buffer) => {
                self.offset = self.offset + buffer.len() as i64;
                proof {
                    let from = at_most(start as nat, content.len());
                    let to = at_most(start as nat + size as nat, content.len());
                    assert(content.skip(from as int).take(to - from) == content.subrange(
                        from as int,
                        to as int,
                    ));
                    assert(content.skip(from as int).take((content.len() - from) as int)
                        == content.skip(from as int));
                }
                Ok(buffer)
            },
            Err(e) => {
                self.reader.rewind();
                self.offset = 0;
                Err(e)
            },
        }
    }
}

} // verus!
