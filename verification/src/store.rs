//! Byte stores: what the engine asks of one, and one that lives in memory.
//!
//! A store is a resizable array of bytes that is read and written at explicit
//! offsets. Every operation may fault. A fault is always reported; an
//! operation that reports success has done exactly what its contract says.
use vstd::prelude::*;
use crate::error::Fault;

verus! {

/// What a read of `count` bytes at `offset` returns: the bytes of `image` from
/// `offset` on, cut short where `image` ends.
pub open spec fn window(image: Seq<u8>, offset: nat, count: nat) -> Seq<u8> {
    if offset >= image.len() {
        Seq::empty()
    } else if offset + count >= image.len() {
        image.subrange(offset as int, image.len() as int)
    } else {
        image.subrange(offset as int, (offset + count) as int)
    }
}

/// What a write of `data` at `offset` leaves: `data` in place of whatever was
/// there, the image grown as far as needed, and zeros in any gap between the
/// old end and `offset`. A write of no bytes leaves the image as it is.
pub open spec fn overlay(image: Seq<u8>, offset: nat, data: Seq<u8>) -> Seq<u8> {
    if data.len() == 0 {
        image
    } else {
        Seq::new(
            if image.len() >= offset + data.len() {
                image.len()
            } else {
                offset + data.len()
            },
            |i: int|
                if offset <= i < offset + data.len() {
                    data[i - offset]
                } else if i < image.len() {
                    image[i]
                } else {
                    0u8
                },
        )
    }
}

/// What setting the length to `len` leaves: the first `len` bytes of `image`,
/// followed by zeros where `image` was shorter.
pub open spec fn fitted(image: Seq<u8>, len: nat) -> Seq<u8> {
    Seq::new(
        len,
        |i: int|
            if i < image.len() {
                image[i]
            } else {
                0u8
            },
    )
}

/// A resizable array of bytes, read and written at explicit offsets.
///
/// `contents` is what the store holds. Each method says what it returns and how
/// it changes `contents` when it reports success. When it reports a fault,
/// a read has still left the contents alone; nothing is known of the contents
/// after a faulted write or resize.
///
/// `span` says how far the store can be relied upon: an operation that stays
/// within the first `span()` bytes never faults. The in-memory store has the
/// whole address space as its span. The default, zero, promises nothing, and
/// is what a store backed by a device must leave in place.
///
/// The three specification functions have default bodies for one reason only:
/// without them a store could not be implemented outside verified code, where
/// there is nothing to write in their place. Nothing rests on the defaults.
/// Code that is generic in the store knows of `contents`, `span` and `label`
/// only what the method contracts say, and a store implemented in verified
/// code, such as `MemStore`, is held to those contracts by its own
/// definitions. A store implemented outside is bound to the contracts by its
/// author's care alone.
pub trait Storage: Sized {
    /// The bytes the store holds.
    open spec fn contents(&self) -> Seq<u8> {
        Seq::empty()
    }

    /// The number of leading bytes within which no operation faults.
    open spec fn span() -> nat {
        0
    }

    /// Which store this is. No operation changes it, so a store can be told
    /// from another after either has been read or written.
    open spec fn label(&self) -> int {
        0
    }

    /// Provisions a new, empty store.
    fn create() -> (made: Result<Self, Fault>)
        ensures
            made matches Ok(store) ==> store.contents() == Seq::<u8>::empty(),
            Self::span() > 0 ==> made is Ok,
    ;

    /// Reads up to `count` bytes starting at `offset`.
    fn read_at(&mut self, offset: u64, count: usize) -> (read: Result<Vec<u8>, Fault>)
        ensures
            final(self).contents() == old(self).contents(),
            final(self).label() == old(self).label(),
            read matches Ok(bytes) ==> bytes@ == window(
                old(self).contents(),
                offset as nat,
                count as nat,
            ),
            Self::span() > 0 ==> read is Ok,
    ;

    /// Writes all of `data` starting at `offset`.
    fn write_at(&mut self, offset: u64, data: &[u8]) -> (written: Result<(), Fault>)
        ensures
            final(self).label() == old(self).label(),
            written is Ok ==> final(self).contents() == overlay(
                old(self).contents(),
                offset as nat,
                data@,
            ),
            offset + data@.len() <= Self::span() ==> written is Ok,
    ;

    /// Cuts the store down to `len` bytes, or pads it with zeros up to `len`.
    fn set_len(&mut self, len: u64) -> (resized: Result<(), Fault>)
        ensures
            final(self).label() == old(self).label(),
            resized is Ok ==> final(self).contents() == fitted(old(self).contents(), len as nat),
            len <= Self::span() ==> resized is Ok,
    ;
}

/// A store that keeps its bytes in memory.
///
/// It faults only when asked to hold more bytes than memory can address.
pub struct MemStore {
    bytes: Vec<u8>,
}

impl MemStore {
    /// An empty store.
    pub fn new() -> (store: Self)
        ensures
            store.contents() == Seq::<u8>::empty(),
    {
        MemStore { bytes: Vec::new() }
    }

    /// The number of bytes held.
    pub fn size(&self) -> (n: usize)
        ensures
            n == self.contents().len(),
    {
        self.bytes.len()
    }

    /// A copy of the bytes held.
    pub fn to_bytes(&self) -> (copy: Vec<u8>)
        ensures
            copy@ == self.contents(),
    {
        let mut copy: Vec<u8> = Vec::new();
        let mut i: usize = 0;
        while i < self.bytes.len()
            invariant
                i <= self.bytes.len(),
                copy@ == self.bytes@.subrange(0, i as int),
            decreases self.bytes.len() - i,
        {
            copy.push(self.bytes[i]);
            i = i + 1;
        }
        assert(copy@ =~= self.bytes@);
        copy
    }

    /// Appends zeros until the store is `len` bytes long.
    fn pad_to(&mut self, len: usize)
        ensures
            old(self).bytes@.len() <= len
                ==> final(self).bytes@ == fitted(old(self).bytes@, len as nat),
            old(self).bytes@.len() > len ==> final(self).bytes@ == old(self).bytes@,
    {
        while self.bytes.len() < len
            invariant
                old(self).bytes@.len() <= len ==> self.bytes@.len() <= len,
                old(self).bytes@.len() <= self.bytes@.len(),
                self.bytes@ == fitted(old(self).bytes@, self.bytes@.len()),
                old(self).bytes@.len() > len ==> self.bytes@ == old(self).bytes@,
            decreases len - self.bytes.len(),
        {
            self.bytes.push(0u8);
            assert(self.bytes@ =~= fitted(old(self).bytes@, self.bytes@.len()));
        }
        assert(old(self).bytes@ =~= fitted(old(self).bytes@, old(self).bytes@.len()));
    }
}

impl Storage for MemStore {
    closed spec fn contents(&self) -> Seq<u8> {
        self.bytes@
    }

    open spec fn span() -> nat {
        usize::MAX as nat
    }

    /// Stores in memory all bear the same label: one cannot be told from
    /// another but by what it holds.
    open spec fn label(&self) -> int {
        0
    }

    fn create() -> (made: Result<Self, Fault>) {
        Ok(MemStore::new())
    }

    fn read_at(&mut self, offset: u64, count: usize) -> (read: Result<Vec<u8>, Fault>) {
        let mut bytes: Vec<u8> = Vec::new();
        let size: usize = self.bytes.len();
        if offset >= size as u64 {
            assert(bytes@ =~= window(self.bytes@, offset as nat, count as nat));
            return Ok(bytes);
        }
        let start: usize = offset as usize;
        let end: usize = if count >= size - start {
            size
        } else {
            start + count
        };
        let mut i: usize = start;
        while i < end
            invariant
                start <= i <= end <= self.bytes@.len(),
                bytes@ == self.bytes@.subrange(start as int, i as int),
            decreases end - i,
        {
            bytes.push(self.bytes[i]);
            i = i + 1;
        }
        Ok(bytes)
    }

    fn write_at(&mut self, offset: u64, data: &[u8]) -> (written: Result<(), Fault>) {
        if data.len() == 0 {
            return Ok(());
        }
        if offset > usize::MAX as u64 {
            return Err(Fault { code: 0 });
        }
        let start: usize = offset as usize;
        if data.len() > usize::MAX - start {
            return Err(Fault { code: 0 });
        }
        self.pad_to(start);
        let ghost padded = self.bytes@;
        let mut i: usize = 0;
        while i < data.len()
            invariant
                i <= data@.len(),
                start + data@.len() <= usize::MAX,
                padded.len() >= start,
                self.bytes@ == overlay(padded, start as nat, data@.subrange(0, i as int)),
            decreases data.len() - i,
        {
            let at: usize = start + i;
            if at < self.bytes.len() {
                self.bytes[at] = data[i];
            } else {
                self.bytes.push(data[i]);
            }
            i = i + 1;
            assert(self.bytes@ =~= overlay(padded, start as nat, data@.subrange(0, i as int)));
        }
        assert(data@.subrange(0, i as int) =~= data@);
        assert(overlay(padded, start as nat, data@) =~= overlay(
            old(self).bytes@,
            start as nat,
            data@,
        ));
        Ok(())
    }

    fn set_len(&mut self, len: u64) -> (resized: Result<(), Fault>) {
        if len > usize::MAX as u64 {
            return Err(Fault { code: 0 });
        }
        let target: usize = len as usize;
        if target <= self.bytes.len() {
            self.bytes.truncate(target);
            assert(self.bytes@ =~= fitted(old(self).bytes@, len as nat));
        } else {
            self.pad_to(target);
        }
        Ok(())
    }
}

} // verus!
