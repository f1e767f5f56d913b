//! A byte-addressable stream in memory that can be written and sought.

use vstd::prelude::*;

verus! {

/// `content` extended with zero bytes up to the length `len`.
pub open spec fn padded(content: Seq<u8>, len: nat) -> Seq<u8> {
    if len <= content.len() {
        content
    } else {
        content + Seq::new((len - content.len()) as nat, |i: int| 0u8)
    }
}

/// The `len` bytes of `content` that start at `at`.
pub open spec fn part(content: Seq<u8>, at: nat, len: nat) -> Seq<u8> {
    content.subrange(at as int, (at + len) as int)
}

/// `content` with `data` written at `at`: the bytes that `data` covers are
/// replaced, and what reaches beyond the end extends the content.
pub open spec fn overwritten(content: Seq<u8>, at: nat, data: Seq<u8>) -> Seq<u8>
    recommends
        at <= content.len(),
{
    if at + data.len() <= content.len() {
        content.take(at as int) + data + content.skip((at + data.len()) as int)
    } else {
        content.take(at as int) + data
    }
}

/// `data` with each byte replaced by what `f` makes of it at its position,
/// where the first byte lies at `at`.
pub open spec fn transformed(data: Seq<u8>, at: nat, f: spec_fn(nat, u8) -> u8) -> Seq<u8> {
    Seq::new(data.len(), |i: int| f((at + i) as nat, data[i]))
}

/// A stream with a cursor. What is written may be stored in another form
/// than it is handed over: `stored` says which byte is stored where the
/// byte `b` is written at the position `at`.
pub trait Stream: Sized {
    /// The bytes that the stream holds.
    spec fn content(&self) -> Seq<u8>;

    /// The position of the next write.
    spec fn cursor(&self) -> nat;

    /// The lowest position that can be sought.
    spec fn floor(&self) -> nat;

    /// The byte that is stored where `b` is written at `at`.
    spec fn stored(&self, at: nat, b: u8) -> u8;

    /// The position of the next write.
    fn stream_position(&self) -> (pos: usize)
        requires
            self.floor() <= self.cursor() <= self.content().len(),
        ensures
            pos == self.cursor(),
    ;

    /// Moves the cursor to `pos`. A position behind the end extends the
    /// content with zero bytes up to it.
    fn seek(&mut self, pos: usize)
        requires
            old(self).floor() <= old(self).cursor() <= old(self).content().len(),
            old(self).floor() <= pos,
        ensures
            final(self).cursor() == pos,
            final(self).content() == padded(old(self).content(), pos as nat),
            final(self).floor() == old(self).floor(),
            forall|at: nat, b: u8| #[trigger] final(self).stored(at, b) == old(self).stored(at, b),
    ;

    /// Moves the cursor `n` bytes forward, extending the content with zero
    /// bytes where it ends before the new position.
    fn skip(&mut self, n: usize)
        requires
            old(self).floor() <= old(self).cursor() <= old(self).content().len(),
        ensures
            final(self).cursor() == old(self).cursor() + n,
            final(self).content() == padded(
                old(self).content(),
                (old(self).cursor() + n) as nat,
            ),
            final(self).floor() == old(self).floor(),
            forall|at: nat, b: u8| #[trigger] final(self).stored(at, b) == old(self).stored(at, b),
    ;

    /// Writes `data` at the cursor and moves the cursor behind it.
    fn write_all(&mut self, data: &[u8])
        requires
            old(self).floor() <= old(self).cursor() <= old(self).content().len(),
        ensures
            final(self).cursor() == old(self).cursor() + data@.len(),
            final(self).content() == overwritten(
                old(self).content(),
                old(self).cursor(),
                transformed(data@, old(self).cursor(), |at: nat, b: u8| old(self).stored(at, b)),
            ),
            final(self).floor() == old(self).floor(),
            forall|at: nat, b: u8| #[trigger] final(self).stored(at, b) == old(self).stored(at, b),
    ;
}

/// The cursor of the stream lies between its floor and its end.
pub open spec fn well_placed<S: Stream>(stream: S) -> bool {
    stream.floor() <= stream.cursor() <= stream.content().len()
}

/// The bytes that are stored where `data` is written at `at`.
pub open spec fn stored_form<S: Stream>(stream: S, at: nat, data: Seq<u8>) -> Seq<u8> {
    transformed(data, at, |p: nat, b: u8| stream.stored(p, b))
}

/// A stream that stores bytes in a buffer as they are written.
#[derive(Debug)]
pub struct ByteWriter {
    pub buffer: Vec<u8>,
    pub position: usize,
}

impl ByteWriter {
    /// An empty stream.
    pub fn new() -> (writer: ByteWriter)
        ensures
            writer.content() == Seq::<u8>::empty(),
            writer.cursor() == 0,
    {
        ByteWriter { buffer: Vec::new(), position: 0 }
    }

    /// The bytes that were written.
    pub fn into_inner(self) -> (bytes: Vec<u8>)
        ensures
            bytes@ == self.content(),
    {
        self.buffer
    }

    /// Writes one byte at the cursor.
    pub fn write_byte(&mut self, b: u8)
        requires
            old(self).cursor() <= old(self).content().len(),
        ensures
            final(self).cursor() == old(self).cursor() + 1,
            final(self).content() == overwritten(old(self).content(), old(self).cursor(), seq![b]),
    {
        if self.position < self.buffer.len() {
            self.buffer[self.position] = b;
            assert(self.buffer@ =~= overwritten(old(self).buffer@, old(self).position as nat, seq![b]));
        } else {
            self.buffer.push(b);
            assert(self.buffer@ =~= overwritten(old(self).buffer@, old(self).position as nat, seq![b]));
        }
        let len: usize = self.buffer.len();
        assert(self.position < len);
        self.position = self.position + 1;
    }
}

impl Stream for ByteWriter {
    open spec fn content(&self) -> Seq<u8> {
        self.buffer@
    }

    open spec fn cursor(&self) -> nat {
        self.position as nat
    }

    open spec fn floor(&self) -> nat {
        0
    }

    open spec fn stored(&self, at: nat, b: u8) -> u8 {
        b
    }

    fn stream_position(&self) -> (pos: usize) {
        self.position
    }

    fn seek(&mut self, pos: usize) {
        while self.buffer.len() < pos
            invariant
                self.buffer@ == padded(old(self).buffer@, self.buffer@.len()),
                old(self).buffer@.len() <= self.buffer@.len(),
                self.buffer@.len() <= pos || self.buffer@ == old(self).buffer@,
            decreases pos - self.buffer.len(),
        {
            let ghost before = self.buffer@;
            self.buffer.push(0u8);
            assert(self.buffer@ =~= padded(old(self).buffer@, self.buffer@.len()));
        }
        self.position = pos;
        assert(self.buffer@ =~= padded(old(self).buffer@, pos as nat));
    }

    fn skip(&mut self, n: usize) {
        let mut i: usize = 0;
        while i < n
            invariant
                i <= n,
                self.position <= self.buffer@.len(),
                self.position == old(self).position + i,
                self.buffer@ == padded(old(self).buffer@, self.position as nat),
            decreases n - i,
        {
            if self.position == self.buffer.len() {
                self.buffer.push(0u8);
            }
            let len: usize = self.buffer.len();
            assert(self.position < len);
            self.position = self.position + 1;
            assert(self.buffer@ =~= padded(old(self).buffer@, self.position as nat));
            i = i + 1;
        }
    }

    fn write_all(&mut self, data: &[u8]) {
        let mut i: usize = 0;
        let ghost start = old(self).position as nat;
        assert(self.buffer@ =~= overwritten(old(self).buffer@, start, data@.take(0)));
        while i < data.len()
            invariant
                i <= data.len(),
                start == old(self).position,
                start <= old(self).buffer@.len(),
                self.position == start + i,
                self.position <= self.buffer@.len(),
                self.buffer@ == overwritten(old(self).buffer@, start, data@.take(i as int)),
            decreases data.len() - i,
        {
            let ghost before = self.buffer@;
            self.write_byte(data[i]);
            assert(self.buffer@ =~= overwritten(old(self).buffer@, start, data@.take(i + 1)));
            i = i + 1;
        }
        assert(data@.take(data.len() as int) =~= data@);
        assert(transformed(data@, start, |at: nat, b: u8| old(self).stored(at, b)) =~= data@);
    }
}

} // verus!
