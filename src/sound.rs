//! Sounds loaded once into memory and shared by reference, and independent
//! read cursors over them.
use std::sync::Arc;
use vstd::prelude::*;

verus! {

/// Relies on `Arc::clone`: the new handle points at the same allocation,
/// so it sees the same value.
#[verifier::external_body]
fn share_bytes(a: &Arc<Vec<u8>>) -> (r: Arc<Vec<u8>>)
    ensures
        r@ == a@,
{
    Arc::clone(a)
}

/// An encoded audio file held in memory. The bytes never change after
/// loading; clones share one buffer.
pub struct Sound {
    bytes: Arc<Vec<u8>>,
}

impl View for Sound {
    type V = Seq<u8>;

    closed spec fn view(&self) -> Seq<u8> {
        self.bytes@
    }
}

/// Where a cursor is asked to move to.
#[derive(Clone, Copy, Debug, PartialEq, Eq)]
pub enum SeekPos {
    /// An absolute offset from the first byte.
    Start(u64),
    /// An offset from one past the last byte.
    End(i64),
    /// An offset from the current position.
    Current(i64),
}

/// A move that would leave the cursor before the first byte, or past
/// what a `u64` can hold.
#[derive(Clone, Copy, Debug, PartialEq, Eq)]
pub enum SeekError {
    BeforeStart,
    Overflow,
}

/// The state of a cursor: the bytes it reads and its position. The
/// position may lie past the end, where reads yield nothing.
pub struct CursorView {
    pub data: Seq<u8>,
    pub pos: nat,
}

/// The bytes that a read of at most `n` bytes yields at `v`.
pub open spec fn chunk(v: CursorView, n: nat) -> Seq<u8> {
    if v.pos >= v.data.len() {
        Seq::empty()
    } else if v.pos + n >= v.data.len() {
        v.data.subrange(v.pos as int, v.data.len() as int)
    } else {
        v.data.subrange(v.pos as int, (v.pos + n) as int)
    }
}

/// The state after a read of at most `n` bytes at `v`.
pub open spec fn advance(v: CursorView, n: nat) -> CursorView {
    CursorView { data: v.data, pos: v.pos + chunk(v, n).len() }
}

/// A fresh cursor over `data`.
pub open spec fn fresh(data: Seq<u8>) -> CursorView {
    CursorView { data, pos: 0 }
}

/// What a run of reads of the given sizes yields, one after another.
pub open spec fn read_through(v: CursorView, sizes: Seq<nat>) -> Seq<u8>
    decreases sizes.len(),
{
    if sizes.len() == 0 {
        Seq::empty()
    } else {
        chunk(v, sizes[0]) + read_through(advance(v, sizes[0]), sizes.drop_first())
    }
}

/// The sum of a run of read sizes.
pub open spec fn total(sizes: Seq<nat>) -> nat
    decreases sizes.len(),
{
    if sizes.len() == 0 {
        0
    } else {
        sizes[0] + total(sizes.drop_first())
    }
}

/// Where a seek lands, as a mathematical integer, before range checks.
pub open spec fn seek_target(v: CursorView, to: SeekPos) -> int {
    match to {
        SeekPos::Start(n) => n as int,
        SeekPos::End(d) => v.data.len() + d,
        SeekPos::Current(d) => v.pos + d,
    }
}

/// A read position over a shared sound buffer. Each cursor has its own
/// position; reading through one never moves another.
pub struct SoundCursor {
    sound: Sound,
    pos: u64,
}

impl View for SoundCursor {
    type V = CursorView;

    closed spec fn view(&self) -> CursorView {
        CursorView { data: self.sound@, pos: self.pos as nat }
    }
}

impl Sound {
    /// Takes the full contents of a sound file.
    pub fn new(bytes: Vec<u8>) -> (r: Sound)
        ensures
            r@ == bytes@,
    {
        Sound { bytes: Arc::new(bytes) }
    }

    /// Number of encoded bytes.
    pub fn len(&self) -> (r: usize)
        ensures
            r == self@.len(),
    {
        self.bytes.len()
    }

    /// The encoded bytes, read in place.
    pub fn bytes(&self) -> (r: &Vec<u8>)
        ensures
            r@ == self@,
    {
        &*self.bytes
    }

    /// A second handle on the same buffer; nothing is copied.
    pub fn share(&self) -> (r: Sound)
        ensures
            r@ == self@,
    {
        Sound { bytes: share_bytes(&self.bytes) }
    }

    /// A new cursor at the first byte of this sound. Any number may be
    /// open at once.
    pub fn cursor(&self) -> (r: SoundCursor)
        ensures
            r@ == fresh(self@),
    {
        SoundCursor { sound: self.share(), pos: 0 }
    }
}

impl SoundCursor {
    /// The current position.
    pub fn position(&self) -> (r: u64)
        ensures
            r == self@.pos,
    {
        self.pos
    }

    /// Copies the next bytes into the front of `buf`, as many as fit and
    /// remain, and moves past them. Returns how many were copied; zero at
    /// or past the end.
    pub fn read(&mut self, buf: &mut [u8]) -> (n: usize)
        ensures
            n == chunk(old(self)@, old(buf)@.len() as nat).len(),
            final(self)@ == advance(old(self)@, old(buf)@.len() as nat),
            final(buf)@.len() == old(buf)@.len(),
            final(buf)@.subrange(0, n as int) == chunk(old(self)@, old(buf)@.len() as nat),
            final(buf)@.subrange(n as int, final(buf)@.len() as int)
                == old(buf)@.subrange(n as int, old(buf)@.len() as int),
    {
        let len = self.sound.len();
        if self.pos >= len as u64 {
            return 0;
        }
        let start = self.pos as usize;
        let remaining = len - start;
        let n: usize = if buf.len() < remaining { buf.len() } else { remaining };
        let ghost b0 = buf@;
        let mut i: usize = 0;
        while i < n
            invariant
                n <= buf@.len(),
                start + n <= len,
                len == self.sound@.len(),
                self.sound.bytes@ == self.sound@,
                buf@.len() == b0.len(),
                i <= n,
                forall|j: int| 0 <= j < i ==> buf@[j] == self.sound@[start + j],
                forall|j: int| i <= j < buf@.len() ==> buf@[j] == b0[j],
            decreases n - i,
        {
            buf[i] = self.sound.bytes[start + i];
            i = i + 1;
        }
        self.pos = (start + n) as u64;
        assert(buf@.subrange(0, n as int) =~= chunk(old(self)@, b0.len() as nat));
        assert(buf@.subrange(n as int, buf@.len() as int) =~= b0.subrange(n as int, b0.len() as int));
        n
    }

    /// Moves the cursor. A target before the first byte is refused, as is
    /// one that a `u64` cannot hold; a target past the end is allowed.
    pub fn seek(&mut self, to: SeekPos) -> (r: Result<u64, SeekError>)
        ensures
            final(self)@.data == old(self)@.data,
            seek_target(old(self)@, to) < 0 ==> r == Err::<u64, SeekError>(SeekError::BeforeStart)
                && final(self)@ == old(self)@,
            seek_target(old(self)@, to) > u64::MAX ==> r == Err::<u64, SeekError>(SeekError::Overflow)
                && final(self)@ == old(self)@,
            0 <= seek_target(old(self)@, to) <= u64::MAX ==> r == Ok::<u64, SeekError>(
                seek_target(old(self)@, to) as u64,
            ) && final(self)@.pos == seek_target(old(self)@, to),
    {
        let (base, delta): (i128, i128) = match to {
            SeekPos::Start(n) => (n as i128, 0),
            SeekPos::End(d) => (self.sound.len() as i128, d as i128),
            SeekPos::Current(d) => (self.pos as i128, d as i128),
        };
        let target: i128 = base + delta;
        if target < 0 {
            Err(SeekError::BeforeStart)
        } else if target > u64::MAX as i128 {
            Err(SeekError::Overflow)
        } else {
            self.pos = target as u64;
            Ok(self.pos)
        }
    }
}

/// Reading a fresh cursor to the end yields every byte of the sound, and
/// depends on that cursor's own reads alone: two cursors over one buffer,
/// each read with its own run of sizes, each yield the whole buffer
/// whatever the other did.
pub proof fn lemma_streams_independent(data: Seq<u8>, sizes_a: Seq<nat>, sizes_b: Seq<nat>)
    requires
        total(sizes_a) >= data.len(),
        total(sizes_b) >= data.len(),
    ensures
        read_through(fresh(data), sizes_a) == data,
        read_through(fresh(data), sizes_b) == data,
{
    lemma_read_rest(fresh(data), sizes_a);
    lemma_read_rest(fresh(data), sizes_b);
    assert(data.subrange(0, data.len() as int) =~= data);
}

/// Reads whose sizes add up to at least what remains yield exactly what
/// remains.
pub proof fn lemma_read_rest(v: CursorView, sizes: Seq<nat>)
    requires
        v.pos <= v.data.len(),
        total(sizes) >= v.data.len() - v.pos,
    ensures
        read_through(v, sizes) == v.data.subrange(v.pos as int, v.data.len() as int),
    decreases sizes.len(),
{
    if sizes.len() == 0 {
        assert(v.data.subrange(v.pos as int, v.data.len() as int) =~= Seq::<u8>::empty());
    } else {
        let w = advance(v, sizes[0]);
        lemma_read_rest(w, sizes.drop_first());
        assert(chunk(v, sizes[0]) + w.data.subrange(w.pos as int, w.data.len() as int)
            =~= v.data.subrange(v.pos as int, v.data.len() as int));
    }
}

} // verus!
