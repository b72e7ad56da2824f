//! The storage engine: a dynamic array whose elements live in byte stores.
//!
//! Slot `i` of a store is the byte range `[i * width, i * width + width)`.
//! An instance owns one primary store and any number of shadows. Every shadow
//! holds the same bytes as the primary, so any of them can take the primary's
//! place when it faults.
//!
//! How faults are met:
//!
//! * a primary that faults is dropped and the last shadow takes its place,
//!   for as long as there are shadows;
//! * a shadow that faults is dropped;
//! * once an operation has gone through, shadows are made anew from the
//!   primary until there are as many as before, as far as fresh stores can be
//!   had;
//! * while a shadow is made, or the primary is copied elsewhere, a primary
//!   that cannot be read is given `RETRY_LIMIT` copies in a row before it is
//!   dropped for a shadow;
//! * a write or a resize that no store is left to carry out leaves the
//!   instance broken: from then on every operation that touches the stores is
//!   refused with `IrrecoverableState`.
use vstd::prelude::*;
use vstd::slice::slice_subrange;
use core::marker::PhantomData;
use crate::codec::{de_from, ser_to, Element};
use crate::error::{Error, Fault};
use crate::layout::{
    decoded, grown, is_capacity, lemma_bytes_monotonic, lemma_capacity_doubles,
    lemma_decoded_after_append, lemma_decoded_after_resize, lemma_decoded_after_write,
    lemma_decoded_block, lemma_grown,
    lemma_grown_monotonic, lemma_grown_next, lemma_grown_through, lemma_slot_bounds, resized, slot,
};
use crate::store::{fitted, overlay, Storage};

verus! {

/// The number of slots a new instance allocates.
pub const INITIAL_CAPACITY: u64 = 8;

/// How often a step that depends on a fresh store is tried before giving up.
pub const RETRY_LIMIT: usize = 5;

/// The number of bytes moved at a time when one store is copied to another.
pub const COPY_BLOCK: usize = 4096;

/// The bytes written to a fresh store, and expected back, when it is tested.
pub open spec fn probe() -> Seq<u8> {
    seq![0u8, 3u8, 6u8, 1u8]
}

/// The byte of `bytes` at `index`, or zero where `bytes` is too short.
fn byte_or_zero(bytes: &[u8], index: usize) -> (byte: u8)
    ensures
        byte == fitted(bytes@, (index + 1) as nat)[index as int],
{
    if index < bytes.len() {
        bytes[index]
    } else {
        0u8
    }
}

/// Decides whether a store passed its test: it did if `read`, the bytes that
/// came back from it, are the bytes `written` to it. Otherwise the error
/// carries what was written and what came back, the latter cut or padded with
/// zeros to the same length.
pub fn rw_verdict(written: [u8; 4], read: &[u8]) -> (verdict: Result<(), Error>)
    ensures
        read@ == written@ ==> verdict == Ok::<(), Error>(()),
        read@ != written@ ==> (verdict matches Err(Error::RWTestFailedNotEqual(sent, echo))
            && sent == written && echo@ == fitted(read@, 4)),
{
    let echo: [u8; 4] = [
        byte_or_zero(read, 0),
        byte_or_zero(read, 1),
        byte_or_zero(read, 2),
        byte_or_zero(read, 3),
    ];
    assert(echo@ =~= fitted(read@, 4));
    if read.len() == 4 && echo[0] == written[0] && echo[1] == written[1] && echo[2] == written[2]
        && echo[3] == written[3] {
        assert(read@ =~= written@);
        Ok(())
    } else {
        assert(read@ != written@) by {
            if read@ == written@ {
                assert(read@.len() == 4);
                assert(echo@[0] == read@[0] && echo@[1] == read@[1] && echo@[2] == read@[2]
                    && echo@[3] == read@[3]);
            }
        }
        Err(Error::RWTestFailedNotEqual(written, echo))
    }
}

/// Tests that `file` gives back what is written to it: writes the four probe
/// bytes at the start, reads them back and compares.
///
/// A store that keeps the contract of `Storage` cannot fail the comparison;
/// the comparison is there for the store that does not.
pub fn rw_test<S: Storage>(file: &mut S) -> (tested: Result<(), Error>)
    ensures
        tested is Ok ==> final(file).contents() == overlay(old(file).contents(), 0, probe()),
        tested matches Err(e) ==> e is Storage,
        S::span() >= 4 ==> tested is Ok,
{
    let buf_in: [u8; 4] = [0u8, 3u8, 6u8, 1u8];
    let sent: Vec<u8> = vec![0u8, 3u8, 6u8, 1u8];
    assert(sent@ =~= probe());
    assert(buf_in@ =~= probe());
    match file.write_at(0, sent.as_slice()) {
        Err(fault) => {
            return Err(Error::Storage(fault));
        },
        Ok(()) => {},
    }
    let buf_out: Vec<u8> = match file.read_at(0, 4) {
        Err(fault) => {
            return Err(Error::Storage(fault));
        },
        Ok(bytes) => bytes,
    };
    assert(buf_out@ =~= probe());
    rw_verdict(buf_in, buf_out.as_slice())
}

/// Provisions a store that has passed `rw_test` and is empty again.
///
/// A store that cannot be created, fails the test or cannot be emptied is
/// dropped and another one is tried, `RETRY_LIMIT` times in all; the error of
/// the last attempt is returned when none succeeds.
pub fn tested_store<S: Storage>() -> (made: Result<S, Error>)
    ensures
        made matches Ok(file) ==> file.contents() == Seq::<u8>::empty(),
        made matches Err(e) ==> e is Storage,
        S::span() >= 4 ==> made is Ok,
{
    let mut last: Error = Error::Storage(Fault { code: 0 });
    let mut attempt: usize = 0;
    while attempt < RETRY_LIMIT
        invariant
            last is Storage,
            S::span() >= 4 ==> attempt == 0,
        decreases RETRY_LIMIT - attempt,
    {
        attempt = attempt + 1;
        match S::create() {
            Err(fault) => {
                last = Error::Storage(fault);
            },
            Ok(mut file) => {
                match rw_test(&mut file) {
                    Err(e) => {
                        last = e;
                    },
                    Ok(()) => {
                        match file.set_len(0) {
                            Err(fault) => {
                                last = Error::Storage(fault);
                            },
                            Ok(()) => {
                                assert(file.contents() =~= Seq::<u8>::empty());
                                return Ok(file);
                            },
                        }
                    },
                }
            },
        }
    }
    Err(last)
}

/// Whether `e` reports a fault of the stores rather than a misuse.
pub open spec fn is_fault(e: Error) -> bool {
    e is Storage || e == Error::IrrecoverableState
}

/// Whether `e` is how a fault that nothing could absorb is reported by an
/// instance that had `shadows` shadows when the operation began: as the
/// fault itself where there was no shadow, and as `IrrecoverableState` where
/// there were shadows and the fault outlasted them.
pub open spec fn reported(shadows: nat, e: Error) -> bool {
    if shadows == 0 {
        e is Storage
    } else {
        e == Error::IrrecoverableState
    }
}

/// The error under which `e`, the fault that ended an operation, is reported
/// by an instance that had `shadows` shadows when the operation began.
fn surfaced(e: Error, shadows: usize) -> (shown: Error)
    ensures
        shown == if shadows > 0 {
            Error::IrrecoverableState
        } else {
            e
        },
{
    if shadows > 0 {
        Error::IrrecoverableState
    } else {
        e
    }
}

/// A dynamic array of `T` kept in stores of type `S`.
pub struct VecFile<T: Element, S: Storage> {
    /// The primary store.
    file: S,
    /// The mirrors of the primary.
    shadows: Vec<S>,
    /// The number of elements present.
    len: u64,
    /// The number of slots allocated in every store.
    cap: u64,
    /// Whether a write or resize was lost to faults.
    broken: bool,
    _phantom: PhantomData<T>,
}

impl<T: Element, S: Storage> View for VecFile<T, S> {
    type V = Seq<T>;

    /// The elements present, in order.
    open spec fn view(&self) -> Seq<T> {
        decoded::<T>(self.image(), self.spec_len() as nat)
    }
}

impl<T: Element, S: Storage> VecFile<T, S> {
    /// The bytes of the primary store.
    pub closed spec fn image(&self) -> Seq<u8> {
        self.file.contents()
    }

    /// The bytes of each shadow, in the order the shadows are kept.
    pub closed spec fn shadow_images(&self) -> Seq<Seq<u8>> {
        Seq::new(self.shadows@.len(), |i: int| self.shadows@[i].contents())
    }

    /// The number of elements present.
    pub closed spec fn spec_len(&self) -> u64 {
        self.len
    }

    /// The number of slots allocated in every store.
    pub closed spec fn spec_cap(&self) -> u64 {
        self.cap
    }

    /// Which store the primary is.
    pub closed spec fn primary_label(&self) -> int {
        self.file.label()
    }

    /// Which stores the shadows are, in the order the shadows are kept.
    pub closed spec fn shadow_labels(&self) -> Seq<int> {
        Seq::new(self.shadows@.len(), |i: int| self.shadows@[i].label())
    }

    /// Whether the store labelled `label` is the primary or one of the
    /// shadows.
    pub open spec fn owns(&self, label: int) -> bool {
        label == self.primary_label() || self.shadow_labels().contains(label)
    }

    /// Whether a write or a resize was lost to faults that no shadow was left
    /// to absorb.
    pub closed spec fn is_broken(&self) -> bool {
        self.broken
    }

    /// The number of shadows.
    pub open spec fn spec_shadow_count(&self) -> nat {
        self.shadow_images().len()
    }

    /// Every shadow holds the bytes of the primary.
    pub open spec fn mirrored(&self) -> bool {
        self.shadows_hold(self.image())
    }

    /// Every shadow holds `image`.
    pub open spec fn shadows_hold(&self, image: Seq<u8>) -> bool {
        forall|i: int|
            0 <= i < self.shadow_images().len() ==> #[trigger] self.shadow_images()[i] == image
    }

    /// Every store holds exactly `cap` slots, and every shadow holds the bytes
    /// of the primary.
    pub open spec fn replicated(&self) -> bool {
        &&& self.image().len() == self.spec_cap() * T::width()
        &&& self.mirrored()
    }

    /// What holds of every instance between operations: the length is within
    /// the capacity, the capacity is 8 doubled some number of times, every
    /// slot has an offset that fits in 64 bits, and unless the instance is
    /// broken its stores are replicated.
    pub open spec fn wf(&self) -> bool {
        &&& self.spec_len() <= self.spec_cap()
        &&& is_capacity(self.spec_cap() as nat)
        &&& self.spec_cap() * T::width() <= u64::MAX
        &&& (!self.is_broken() ==> self.replicated())
    }

    /// Whether `e` is how this instance reports a fault that outlasts its
    /// shadows: as the fault itself where it has no shadow, and otherwise as
    /// `IrrecoverableState`.
    pub open spec fn reports(&self, e: Error) -> bool {
        reported(self.spec_shadow_count(), e)
    }

    /// The number of bytes allocated in every store once one more element
    /// has been taken in: twice as many as now when every slot is taken.
    pub open spec fn bytes_after_push(&self) -> nat {
        if self.spec_len() == self.spec_cap() {
            (2 * self.spec_cap() * T::width()) as nat
        } else {
            (self.spec_cap() * T::width()) as nat
        }
    }

    /// Whether no further element can be appended: every slot is taken and
    /// twice as many would not fit in 64 bits of offset.
    pub open spec fn is_full(&self) -> bool {
        self.spec_len() == self.spec_cap() && 2 * self.spec_cap() * T::width() > u64::MAX
    }

    /// Binds a new, empty instance to `file`, whose former content is
    /// discarded.
    pub fn new_with_path(file: S) -> (made: Result<Self, Error>)
        ensures
            made matches Ok(vf) ==> vf.wf() && !vf.is_broken() && vf@ == Seq::<T>::empty()
                && vf.spec_len() == 0 && vf.spec_cap() == INITIAL_CAPACITY
                && vf.spec_shadow_count() == 0,
            made matches Err(e) ==> (e == Error::IndexExceedsMaxU64 <==> INITIAL_CAPACITY
                * T::width() > u64::MAX) && (e != Error::IndexExceedsMaxU64 ==> e is Storage),
            INITIAL_CAPACITY * T::width() <= u64::MAX && INITIAL_CAPACITY * T::width()
                <= S::span() ==> made is Ok,
    {
        proof {
            T::lemma_codec();
        }
        let mut file = file;
        let width: u64 = T::size() as u64;
        if width > u64::MAX / INITIAL_CAPACITY {
            return Err(Error::IndexExceedsMaxU64);
        }
        match file.set_len(0) {
            Err(fault) => {
                return Err(Error::Storage(fault));
            },
            Ok(()) => {},
        }
        match file.set_len(INITIAL_CAPACITY * width) {
            Err(fault) => {
                return Err(Error::Storage(fault));
            },
            Ok(()) => {},
        }
        let vf = VecFile {
            file,
            shadows: Vec::new(),
            len: 0,
            cap: INITIAL_CAPACITY,
            broken: false,
            _phantom: PhantomData,
        };
        assert(vf@ =~= Seq::<T>::empty());
        assert(vf.shadow_images() =~= Seq::<Seq<u8>>::empty());
        Ok(vf)
    }

    /// Creates a new, empty instance on a store of its own.
    pub fn new() -> (made: Result<Self, Error>)
        ensures
            made matches Ok(vf) ==> vf.wf() && !vf.is_broken() && vf@ == Seq::<T>::empty()
                && vf.spec_len() == 0 && vf.spec_cap() == INITIAL_CAPACITY
                && vf.spec_shadow_count() == 0,
            made matches Err(e) ==> (e == Error::IndexExceedsMaxU64 <==> INITIAL_CAPACITY
                * T::width() > u64::MAX) && (e != Error::IndexExceedsMaxU64 ==> e is Storage),
            INITIAL_CAPACITY * T::width() <= u64::MAX && INITIAL_CAPACITY * T::width()
                <= S::span() ==> made is Ok,
    {
        proof {
            T::lemma_codec();
        }
        let width: u64 = T::size() as u64;
        if width > u64::MAX / INITIAL_CAPACITY {
            return Err(Error::IndexExceedsMaxU64);
        }
        match tested_store::<S>() {
            Err(e) => Err(e),
            Ok(file) => Self::new_with_path(file),
        }
    }

    /// Takes `file` to hold `len` elements in `cap` slots, as an earlier
    /// instance left it. The bytes are taken as they are; only the number
    /// of slots allocated is made to agree with `cap`.
    pub fn from_raw_parts(file: S, len: u64, cap: u64) -> (made: Result<Self, Error>)
        requires
            len <= cap,
            is_capacity(cap as nat),
            cap * T::width() <= u64::MAX,
        ensures
            made matches Ok(vf) ==> vf.wf() && !vf.is_broken() && vf.spec_len() == len
                && vf.spec_cap() == cap && vf.spec_shadow_count() == 0 && vf.image() == fitted(
                file.contents(),
                (cap * T::width()) as nat,
            ),
            made matches Err(e) ==> e is Storage,
            cap * T::width() <= S::span() ==> made is Ok,
    {
        proof {
            T::lemma_codec();
        }
        let mut file = file;
        let width: u64 = T::size() as u64;
        assert(cap * width <= u64::MAX);
        match file.set_len(cap * width) {
            Err(fault) => {
                return Err(Error::Storage(fault));
            },
            Ok(()) => {},
        }
        let vf = VecFile {
            file,
            shadows: Vec::new(),
            len,
            cap,
            broken: false,
            _phantom: PhantomData,
        };
        assert(vf.shadow_images() =~= Seq::<Seq<u8>>::empty());
        Ok(vf)
    }

    /// The byte offset of slot `index`, if the whole slot lies within 64 bits
    /// of offset.
    pub fn calc_index(&self, index: u64) -> (offset: Result<u64, Error>)
        ensures
            index * T::width() + T::width() - 1 <= u64::MAX ==> offset == Ok::<u64, Error>(
                (index * T::width()) as u64,
            ),
            index * T::width() + T::width() - 1 > u64::MAX ==> offset == Err::<u64, Error>(
                Error::IndexExceedsMaxU64,
            ),
    {
        proof {
            T::lemma_codec();
        }
        let width: u64 = T::size() as u64;
        let start_index: u64 = match index.checked_mul(width) {
            None => {
                return Err(Error::IndexExceedsMaxU64);
            },
            Some(start) => start,
        };
        match start_index.checked_add(width - 1) {
            None => Err(Error::IndexExceedsMaxU64),
            Some(_) => Ok(start_index),
        }
    }

    /// Whether `index` is the index of an element.
    pub fn bounds_check(&self, index: u64) -> (within: bool)
        ensures
            within == (index < self.spec_len()),
    {
        index < self.len
    }

    /// Whether `index` is the index of an allocated slot.
    pub fn capacity_check(&self, index: u64) -> (within: bool)
        ensures
            within == (index < self.spec_cap()),
    {
        index < self.cap
    }

    /// The number of slots allocated.
    pub fn cap(&self) -> (cap: u64)
        ensures
            cap == self.spec_cap(),
    {
        self.cap
    }

    /// The number of elements present.
    pub fn len(&self) -> (len: u64)
        ensures
            len == self.spec_len(),
            len == self@.len(),
    {
        self.len
    }

    /// The number of shadows.
    pub fn shadow_count(&self) -> (count: usize)
        ensures
            count == self.spec_shadow_count(),
    {
        self.shadows.len()
    }

    /// The size, in bytes, of one element.
    pub fn element_size(&self) -> (size: usize)
        ensures
            size == T::width(),
    {
        T::size()
    }

    /// The largest number of elements whose bytes fit in 64 bits of offset.
    pub fn max_capacity() -> (most: u64)
        ensures
            most == u64::MAX as nat / T::width(),
    {
        proof {
            T::lemma_codec();
        }
        u64::MAX / (T::size() as u64)
    }
}

/// A change made to every store of an instance alike.
enum Change<'a> {
    /// `data` is written at `offset`.
    Write { offset: u64, data: &'a [u8] },
    /// The store is cut or padded to `len` bytes.
    Resize { len: u64 },
}

impl<'a> Change<'a> {
    /// What a store holding `image` holds once the change is made.
    spec fn applied(self, image: Seq<u8>) -> Seq<u8> {
        match self {
            Change::Write { offset, data } => overlay(image, offset as nat, data@),
            Change::Resize { len } => fitted(image, len as nat),
        }
    }

    /// The number of leading bytes of a store that the change stays within.
    spec fn reach(self) -> nat {
        match self {
            Change::Write { offset, data } => (offset + data@.len()) as nat,
            Change::Resize { len } => len as nat,
        }
    }

    /// Makes the change to one store.
    fn apply<S: Storage>(&self, file: &mut S) -> (done: Result<(), Fault>)
        ensures
            done is Ok ==> final(file).contents() == self.applied(old(file).contents()),
            self.reach() <= S::span() ==> done is Ok,
    {
        match self {
            Change::Write { offset, data } => file.write_at(*offset, data),
            Change::Resize { len } => file.set_len(*len),
        }
    }
}

impl<T: Element, S: Storage> VecFile<T, S> {
    /// Promotion: drops the primary and puts the last shadow in its place.
    /// Nothing happens when there is no shadow.
    fn replace_with_shadow(&mut self) -> (promoted: bool)
        ensures
            promoted == (old(self).spec_shadow_count() > 0),
            promoted ==> final(self).image() == old(self).shadow_images().last() && final(
                self).shadow_images() == old(self).shadow_images().drop_last() && final(
                self).primary_label() == old(self).shadow_labels().last() && final(
                self).shadow_labels() == old(self).shadow_labels().drop_last(),
            !promoted ==> final(self).image() == old(self).image() && final(self).shadow_images()
                == old(self).shadow_images() && final(self).primary_label() == old(
                self).primary_label() && final(self).shadow_labels() == old(self).shadow_labels(),
            final(self).spec_len() == old(self).spec_len(),
            final(self).spec_cap() == old(self).spec_cap(),
            final(self).is_broken() == old(self).is_broken(),
            old(self).shadow_labels().len() == old(self).spec_shadow_count(),
    {
        match self.shadows.pop() {
            None => false,
            Some(shadow) => {
                self.file = shadow;
                assert(self.shadow_images() =~= old(self).shadow_images().drop_last());
                assert(self.shadow_labels() =~= old(self).shadow_labels().drop_last());
                true
            },
        }
    }

    /// Reads `count` bytes at `offset` from the primary. A primary that faults
    /// is replaced by the last shadow and the read is tried again, until it
    /// succeeds or no shadow is left.
    fn read_bytes(&mut self, offset: u64, count: usize) -> (read: Result<Vec<u8>, Error>)
        requires
            old(self).mirrored(),
            offset + count <= old(self).image().len(),
        ensures
            final(self).mirrored(),
            final(self).image() == old(self).image(),
            final(self).spec_len() == old(self).spec_len(),
            final(self).spec_cap() == old(self).spec_cap(),
            final(self).is_broken() == old(self).is_broken(),
            final(self).spec_shadow_count() <= old(self).spec_shadow_count(),
            read matches Ok(bytes) ==> bytes@ == old(self).image().subrange(
                offset as int,
                offset + count,
            ),
            read matches Err(e) ==> final(self).spec_shadow_count() == 0 && old(self).reports(e),
            S::span() > 0
                ==> read is Ok && final(self).spec_shadow_count() == old(self).spec_shadow_count(),
    {
        let had_shadows: bool = self.shadows.len() > 0;
        loop
            invariant
                self.mirrored(),
                self.image() == old(self).image(),
                self.spec_len() == old(self).spec_len(),
                self.spec_cap() == old(self).spec_cap(),
                self.is_broken() == old(self).is_broken(),
                self.spec_shadow_count() <= old(self).spec_shadow_count(),
                had_shadows == (old(self).spec_shadow_count() > 0),
                S::span() > 0 ==> self.spec_shadow_count() == old(self).spec_shadow_count(),
                offset + count <= old(self).image().len(),
            decreases self.spec_shadow_count(),
        {
            match self.file.read_at(offset, count) {
                Ok(bytes) => {
                    assert(bytes@ =~= old(self).image().subrange(offset as int, offset + count));
                    return Ok(bytes);
                },
                Err(fault) => {
                    let ghost before = self.shadow_images();
                    if !self.replace_with_shadow() {
                        return Err(
                            if had_shadows {
                                Error::IrrecoverableState
                            } else {
                                Error::Storage(fault)
                            },
                        );
                    }
                    assert(self.image() == before[before.len() - 1]);
                },
            }
        }
    }

    /// Makes `change` to the primary and to every shadow.
    ///
    /// A primary that faults is replaced by the last shadow and the change is
    /// tried again on it; when no shadow is left the instance is broken. A
    /// shadow that faults is dropped.
    fn commit(&mut self, change: &Change) -> (done: Result<(), Error>)
        requires
            old(self).mirrored(),
            !old(self).is_broken(),
        ensures
            final(self).spec_len() == old(self).spec_len(),
            final(self).spec_cap() == old(self).spec_cap(),
            final(self).spec_shadow_count() <= old(self).spec_shadow_count(),
            done is Ok
                ==> !final(self).is_broken() && final(self).mirrored() && final(self).image()
                    == change.applied(old(self).image()),
            done matches Err(e) ==> final(self).is_broken() && old(self).reports(e),
            change.reach() <= S::span()
                ==> done is Ok && final(self).spec_shadow_count() == old(self).spec_shadow_count(),
    {
        let had_shadows: bool = self.shadows.len() > 0;
        let ghost base = self.image();
        loop
            invariant_except_break
                self.image() == base,
            invariant
                self.shadows_hold(base),
                base == old(self).image(),
                !self.is_broken(),
                self.spec_len() == old(self).spec_len(),
                self.spec_cap() == old(self).spec_cap(),
                self.spec_shadow_count() <= old(self).spec_shadow_count(),
                had_shadows == (old(self).spec_shadow_count() > 0),
                change.reach() <= S::span()
                    ==> self.spec_shadow_count() == old(self).spec_shadow_count(),
            ensures
                self.image() == change.applied(base),
            decreases self.spec_shadow_count(),
        {
            match change.apply(&mut self.file) {
                Ok(()) => {
                    break ;
                },
                Err(fault) => {
                    let ghost before = self.shadow_images();
                    if !self.replace_with_shadow() {
                        self.broken = true;
                        return Err(
                            if had_shadows {
                                Error::IrrecoverableState
                            } else {
                                Error::Storage(fault)
                            },
                        );
                    }
                    assert(self.image() == before[before.len() - 1]);
                },
            }
        }
        let ghost target = change.applied(base);
        let mut i: usize = 0;
        while i < self.shadows.len()
            invariant
                i <= self.shadows@.len(),
                self.image() == target,
                !self.is_broken(),
                self.spec_len() == old(self).spec_len(),
                self.spec_cap() == old(self).spec_cap(),
                self.spec_shadow_count() <= old(self).spec_shadow_count(),
                change.reach() <= S::span()
                    ==> self.spec_shadow_count() == old(self).spec_shadow_count(),
                forall|k: int| 0 <= k < i ==> #[trigger] self.shadow_images()[k] == target,
                forall|k: int|
                    i <= k < self.shadow_images().len() ==> #[trigger] self.shadow_images()[k]
                        == base,
                target == change.applied(base),
            decreases self.shadows@.len() - i,
        {
            let ghost before = self.shadow_images();
            assert(before[i as int] == base);
            match change.apply(&mut self.shadows[i]) {
                Ok(()) => {
                    assert forall|k: int| 0 <= k < i + 1 implies #[trigger] self.shadow_images()[k]
                        == target by {
                        if k < i {
                            assert(self.shadow_images()[k] == before[k]);
                        }
                    }
                    assert forall|k: int| i + 1 <= k < self.shadow_images().len() implies (
                    #[trigger] self.shadow_images()[k]) == base by {
                        assert(self.shadow_images()[k] == before[k]);
                    }
                    i = i + 1;
                },
                Err(_) => {
                    let ghost faulted = self.shadow_images();
                    self.shadows.remove(i);
                    assert forall|k: int| 0 <= k < i implies #[trigger] self.shadow_images()[k]
                        == target by {
                        assert(self.shadow_images()[k] == faulted[k]);
                        assert(faulted[k] == before[k]);
                    }
                    assert forall|k: int| i <= k < self.shadow_images().len() implies (
                    #[trigger] self.shadow_images()[k]) == base by {
                        assert(self.shadow_images()[k] == faulted[k + 1]);
                        assert(faulted[k + 1] == before[k + 1]);
                    }
                },
            }
        }
        Ok(())
    }
}

/// Which store faulted when the primary was copied into another store.
enum CopyFault {
    /// The primary, which was being read.
    Source(Fault),
    /// The store written to.
    Target(Fault),
}

/// Why the primary could not be copied into another store.
enum CopyFailure {
    /// The primary could not be read, time and again, and in the end no
    /// shadow was left to read instead.
    Source(Error),
    /// The store written to faulted.
    Target(Fault),
}

impl<T: Element, S: Storage> VecFile<T, S> {
    /// The number of bytes allocated in every store.
    pub open spec fn byte_cap(&self) -> nat {
        (self.spec_cap() * T::width()) as nat
    }

    /// Makes `target` hold the bytes of the primary: sizes it to the capacity
    /// and copies the primary into it block by block. The first fault ends
    /// the copy.
    fn copy_image_into(&mut self, target: &mut S) -> (done: Result<(), CopyFault>)
        requires
            old(self).wf(),
            !old(self).is_broken(),
        ensures
            final(self).wf(),
            !final(self).is_broken(),
            final(self).image() == old(self).image(),
            final(self).shadow_images() == old(self).shadow_images(),
            final(self).primary_label() == old(self).primary_label(),
            final(self).shadow_labels() == old(self).shadow_labels(),
            final(self).spec_len() == old(self).spec_len(),
            final(self).spec_cap() == old(self).spec_cap(),
            final(target).label() == old(target).label(),
            done is Ok ==> final(target).contents() == old(self).image(),
            old(self).byte_cap() <= S::span() ==> done is Ok,
    {
        proof {
            T::lemma_codec();
        }
        let total: u64 = self.cap * (T::size() as u64);
        match target.set_len(total) {
            Err(fault) => {
                return Err(CopyFault::Target(fault));
            },
            Ok(()) => {},
        }
        let ghost image = self.image();
        let mut copied: u64 = 0;
        while copied < total
            invariant
                self.wf(),
                !self.is_broken(),
                self.image() == image,
                image == old(self).image(),
                image.len() == total,
                self.shadow_images() == old(self).shadow_images(),
                self.primary_label() == old(self).primary_label(),
                self.shadow_labels() == old(self).shadow_labels(),
                self.spec_len() == old(self).spec_len(),
                self.spec_cap() == old(self).spec_cap(),
                target.label() == old(target).label(),
                total == old(self).byte_cap(),
                copied <= total,
                target.contents().len() == total,
                target.contents().subrange(0, copied as int) == image.subrange(0, copied as int),
            decreases total - copied,
        {
            let block: usize = if total - copied < COPY_BLOCK as u64 {
                (total - copied) as usize
            } else {
                COPY_BLOCK
            };
            let bytes: Vec<u8> = match self.file.read_at(copied, block) {
                Err(fault) => {
                    return Err(CopyFault::Source(fault));
                },
                Ok(bytes) => bytes,
            };
            assert(bytes@ =~= image.subrange(copied as int, copied + block));
            let ghost before = target.contents();
            match target.write_at(copied, bytes.as_slice()) {
                Err(fault) => {
                    return Err(CopyFault::Target(fault));
                },
                Ok(()) => {},
            }
            proof {
                let after = target.contents();
                let next = copied + block;
                assert(after.len() == total);
                assert forall|k: int| 0 <= k < next implies #[trigger] after[k] == image[k] by {
                    if k < copied {
                        assert(before.subrange(0, copied as int)[k] == image.subrange(
                            0,
                            copied as int,
                        )[k]);
                    }
                }
                assert(after.subrange(0, next as int) =~= image.subrange(0, next as int));
            }
            copied = copied + block as u64;
        }
        assert(target.contents() =~= image) by {
            assert(target.contents().subrange(0, total as int) =~= target.contents());
            assert(image.subrange(0, total as int) =~= image);
        }
        Ok(())
    }

    /// Makes `target` hold the bytes of the primary, and does not give up on
    /// the primary at once: a copy that ends because the primary cannot be
    /// read is made again, and only when `RETRY_LIMIT` copies in a row have
    /// ended so is the fault laid to the primary, which is then replaced by
    /// the last shadow before the copy is made again. When no shadow is left
    /// to take its place, the copy fails. A fault of `target` ends it at once.
    fn fill(&mut self, target: &mut S) -> (done: Result<(), CopyFailure>)
        requires
            old(self).wf(),
            !old(self).is_broken(),
        ensures
            final(self).wf(),
            !final(self).is_broken(),
            final(self).image() == old(self).image(),
            final(self).spec_len() == old(self).spec_len(),
            final(self).spec_cap() == old(self).spec_cap(),
            final(self).spec_shadow_count() <= old(self).spec_shadow_count(),
            old(self).owns(final(self).primary_label()),
            final(target).label() == old(target).label(),
            done is Ok ==> final(target).contents() == old(self).image(),
            done matches Err(CopyFailure::Source(e)) ==> old(self).reports(e) && final(
                self).spec_shadow_count() == 0,
            old(self).byte_cap() <= S::span() ==> done is Ok && final(self).spec_shadow_count()
                == old(self).spec_shadow_count() && final(self).primary_label() == old(
                self).primary_label(),
    {
        let had_shadows: bool = self.shadows.len() > 0;
        let mut failures: usize = 0;
        loop
            invariant
                self.wf(),
                !self.is_broken(),
                self.image() == old(self).image(),
                self.spec_len() == old(self).spec_len(),
                self.spec_cap() == old(self).spec_cap(),
                self.spec_shadow_count() <= old(self).spec_shadow_count(),
                self.shadow_labels().len() == self.spec_shadow_count(),
                had_shadows == (old(self).spec_shadow_count() > 0),
                old(self).owns(self.primary_label()),
                forall|k: int|
                    0 <= k < self.shadow_labels().len() ==> old(self).owns(
                        #[trigger] self.shadow_labels()[k],
                    ),
                target.label() == old(target).label(),
                failures < RETRY_LIMIT,
                old(self).byte_cap() <= S::span() ==> self.spec_shadow_count() == old(
                    self).spec_shadow_count() && self.primary_label() == old(self).primary_label(),
            decreases self.spec_shadow_count(), RETRY_LIMIT - failures,
        {
            match self.copy_image_into(target) {
                Ok(()) => {
                    return Ok(());
                },
                Err(CopyFault::Target(fault)) => {
                    return Err(CopyFailure::Target(fault));
                },
                Err(CopyFault::Source(fault)) => {
                    failures = failures + 1;
                    if failures >= RETRY_LIMIT {
                        let ghost images = self.shadow_images();
                        let ghost labels = self.shadow_labels();
                        if !self.replace_with_shadow() {
                            return Err(
                                CopyFailure::Source(
                                    if had_shadows {
                                        Error::IrrecoverableState
                                    } else {
                                        Error::Storage(fault)
                                    },
                                ),
                            );
                        }
                        assert(self.image() == images[images.len() - 1]);
                        assert(self.primary_label() == labels[labels.len() - 1]);
                        assert forall|k: int| 0 <= k < self.shadow_labels().len() implies old(
                            self).owns(#[trigger] self.shadow_labels()[k]) by {
                            assert(self.shadow_labels()[k] == labels[k]);
                        }
                        failures = 0;
                    }
                },
            }
        }
    }

    /// Makes a shadow: a fresh, tested store that holds the bytes of the
    /// primary.
    ///
    /// When the fresh store faults while it is filled, it is dropped and the
    /// next one is tried, `RETRY_LIMIT` times in all. A primary that cannot
    /// be read is met as `fill` says: after `RETRY_LIMIT` failed copies a
    /// shadow takes its place, and `IrrecoverableState` comes only when the
    /// instance had shadows and none is left.
    fn new_shadow(&mut self) -> (made: Result<S, Error>)
        requires
            old(self).wf(),
            !old(self).is_broken(),
        ensures
            final(self).wf(),
            !final(self).is_broken(),
            final(self).image() == old(self).image(),
            final(self).spec_len() == old(self).spec_len(),
            final(self).spec_cap() == old(self).spec_cap(),
            final(self).spec_shadow_count() <= old(self).spec_shadow_count(),
            made matches Ok(shadow) ==> shadow.contents() == old(self).image(),
            made matches Err(e) ==> is_fault(e),
            made == Err::<S, Error>(Error::IrrecoverableState) ==> old(self).spec_shadow_count() > 0
                && final(self).spec_shadow_count() == 0,
            made matches Err(e) ==> (old(self).spec_shadow_count() == 0 ==> e is Storage),
            old(self).byte_cap() <= S::span() ==> made is Ok && final(self).spec_shadow_count()
                == old(self).spec_shadow_count() && final(self).primary_label() == old(
                self).primary_label(),
    {
        proof {
            T::lemma_codec();
            lemma_capacity_doubles(self.spec_cap() as nat);
            assert(self.byte_cap() >= 8) by (nonlinear_arith)
                requires
                    self.byte_cap() == self.spec_cap() * T::width(),
                    self.spec_cap() >= 8,
                    T::width() >= 1,
            ;
        }
        let shadows_before: usize = self.shadows.len();
        let mut last: Error = Error::Storage(Fault { code: 0 });
        let mut attempt: usize = 0;
        while attempt < RETRY_LIMIT
            invariant
                shadows_before == old(self).spec_shadow_count(),
                self.wf(),
                !self.is_broken(),
                self.image() == old(self).image(),
                self.spec_len() == old(self).spec_len(),
                self.spec_cap() == old(self).spec_cap(),
                self.spec_shadow_count() <= old(self).spec_shadow_count(),
                last is Storage,
                self.byte_cap() >= 8,
                self.byte_cap() <= S::span() ==> attempt == 0 && self.spec_shadow_count() == old(
                    self).spec_shadow_count() && self.primary_label() == old(self).primary_label(),
            decreases RETRY_LIMIT - attempt,
        {
            attempt = attempt + 1;
            let mut shadow: S = match tested_store::<S>() {
                Err(e) => {
                    return Err(e);
                },
                Ok(shadow) => shadow,
            };
            match self.fill(&mut shadow) {
                Ok(()) => {
                    return Ok(shadow);
                },
                Err(CopyFailure::Source(e)) => {
                    return Err(surfaced(e, shadows_before));
                },
                Err(CopyFailure::Target(fault)) => {
                    last = Error::Storage(fault);
                },
            }
        }
        Err(last)
    }

    /// Makes shadows until there are `target` of them, for as long as that
    /// goes well: it stops at the `RETRY_LIMIT`th shadow that cannot be made.
    fn restore_shadows(&mut self, target: usize)
        requires
            old(self).wf(),
            !old(self).is_broken(),
        ensures
            final(self).wf(),
            !final(self).is_broken(),
            final(self).image() == old(self).image(),
            final(self).spec_len() == old(self).spec_len(),
            final(self).spec_cap() == old(self).spec_cap(),
            final(self).spec_shadow_count() <= old(self).spec_shadow_count()
                || final(self).spec_shadow_count() <= target,
            old(self).byte_cap() <= S::span() && old(self).spec_shadow_count() <= target
                ==> final(self).spec_shadow_count() == target,
            old(self).spec_shadow_count() >= target
                ==> final(self).spec_shadow_count() == old(self).spec_shadow_count(),
    {
        let mut failures: usize = 0;
        let mut rounds: usize = 0;
        while self.shadows.len() < target && failures < RETRY_LIMIT && rounds < target
            invariant
                self.wf(),
                !self.is_broken(),
                self.image() == old(self).image(),
                self.spec_len() == old(self).spec_len(),
                self.spec_cap() == old(self).spec_cap(),
                self.spec_shadow_count() <= old(self).spec_shadow_count()
                    || self.spec_shadow_count() <= target,
                rounds <= target,
                old(self).byte_cap() <= S::span() && old(self).spec_shadow_count() <= target
                    ==> failures == 0 && self.spec_shadow_count() == old(self).spec_shadow_count()
                        + rounds,
                old(self).spec_shadow_count() >= target
                    ==> self.spec_shadow_count() == old(self).spec_shadow_count(),
            decreases target - rounds,
        {
            rounds = rounds + 1;
            match self.new_shadow() {
                Ok(shadow) => {
                    let ghost before = self.shadow_images();
                    self.shadows.push(shadow);
                    assert(self.shadow_images() =~= before.push(self.image()));
                },
                Err(_) => {
                    failures = failures + 1;
                },
            }
        }
    }

    /// Adds `additional_shadows` shadows, each a copy of the primary.
    ///
    /// Once a shadow has taken the primary's place another one is made of
    /// itself, so this need not be called again after a fault.
    pub fn add_shadows(&mut self, additional_shadows: usize) -> (added: Result<(), Error>)
        requires
            old(self).wf(),
        ensures
            final(self).wf(),
            final(self)@ == old(self)@,
            final(self).spec_len() == old(self).spec_len(),
            final(self).spec_cap() == old(self).spec_cap(),
            final(self).is_broken() == old(self).is_broken(),
            final(self).spec_shadow_count() <= old(self).spec_shadow_count() + additional_shadows,
            added is Ok ==> !old(self).is_broken(),
            old(self).is_broken() ==> added == Err::<(), Error>(Error::IrrecoverableState),
            added matches Err(e) ==> is_fault(e),
            !old(self).is_broken() && old(self).byte_cap() <= S::span()
                ==> added is Ok && final(self).spec_shadow_count() == old(self).spec_shadow_count()
                    + additional_shadows,
            added == Err::<(), Error>(Error::IrrecoverableState) && !old(self).is_broken()
                ==> final(self).spec_shadow_count() == 0,
    {
        if self.broken {
            return Err(Error::IrrecoverableState);
        }
        let mut made: usize = 0;
        while made < additional_shadows
            invariant
                made <= additional_shadows,
                self.wf(),
                !self.is_broken(),
                !old(self).is_broken(),
                self.image() == old(self).image(),
                self.spec_len() == old(self).spec_len(),
                self.spec_cap() == old(self).spec_cap(),
                self.spec_shadow_count() <= old(self).spec_shadow_count() + made,
                old(self).byte_cap() <= S::span()
                    ==> self.spec_shadow_count() == old(self).spec_shadow_count() + made,
            decreases additional_shadows - made,
        {
            let new_shadow: S = match self.new_shadow() {
                Err(e) => {
                    return Err(e);
                },
                Ok(shadow) => shadow,
            };
            let ghost before = self.shadow_images();
            self.shadows.push(new_shadow);
            assert(self.shadow_images() =~= before.push(self.image()));
            made = made + 1;
        }
        Ok(())
    }

    /// Removes the last `shadow_to_remove` shadows, or all of them where
    /// there are fewer.
    pub fn remove_shadows(&mut self, shadow_to_remove: usize)
        requires
            old(self).wf(),
        ensures
            final(self).wf(),
            final(self)@ == old(self)@,
            final(self).image() == old(self).image(),
            final(self).spec_len() == old(self).spec_len(),
            final(self).spec_cap() == old(self).spec_cap(),
            final(self).is_broken() == old(self).is_broken(),
            final(self).spec_shadow_count() == if old(self).spec_shadow_count()
                >= shadow_to_remove {
                old(self).spec_shadow_count() - shadow_to_remove
            } else {
                0
            },
    {
        let mut removed: usize = 0;
        while removed < shadow_to_remove && self.shadows.len() > 0
            invariant
                removed <= shadow_to_remove,
                self.wf(),
                self.image() == old(self).image(),
                self.spec_len() == old(self).spec_len(),
                self.spec_cap() == old(self).spec_cap(),
                self.is_broken() == old(self).is_broken(),
                self.spec_shadow_count() + removed == old(self).spec_shadow_count(),
            decreases shadow_to_remove - removed,
        {
            let ghost before = self.shadow_images();
            self.shadows.pop();
            assert(self.shadow_images() =~= before.drop_last());
            removed = removed + 1;
        }
    }

    /// Removes all shadows.
    pub fn clear_shadows(&mut self)
        requires
            old(self).wf(),
        ensures
            final(self).wf(),
            final(self)@ == old(self)@,
            final(self).image() == old(self).image(),
            final(self).spec_len() == old(self).spec_len(),
            final(self).spec_cap() == old(self).spec_cap(),
            final(self).is_broken() == old(self).is_broken(),
            final(self).spec_shadow_count() == 0,
    {
        self.shadows = Vec::new();
        assert(self.shadow_images() =~= Seq::<Seq<u8>>::empty());
    }
}

impl<T: Element, S: Storage> VecFile<T, S> {
    /// Doubles the capacity: every store is resized to hold twice as many
    /// slots.
    fn expand(&mut self) -> (expanded: Result<(), Error>)
        requires
            old(self).wf(),
            !old(self).is_broken(),
            2 * old(self).byte_cap() <= u64::MAX,
        ensures
            final(self).wf(),
            final(self).spec_len() == old(self).spec_len(),
            final(self).spec_shadow_count() <= old(self).spec_shadow_count(),
            expanded is Ok
                ==> !final(self).is_broken() && final(self).spec_cap() == 2 * old(self).spec_cap()
                    && final(self)@ == old(self)@ && final(self).image() == fitted(
                old(self).image(),
                2 * old(self).byte_cap(),
            ),
            expanded matches Err(e)
                ==> old(self).reports(e) && final(self).is_broken() && final(self).spec_cap()
                    == old(self).spec_cap(),
            2 * old(self).byte_cap() <= S::span()
                ==> expanded is Ok && final(self).spec_shadow_count()
                    == old(self).spec_shadow_count(),
    {
        proof {
            T::lemma_codec();
            lemma_capacity_doubles(self.spec_cap() as nat);
            lemma_bytes_monotonic(self.spec_len() as nat, self.spec_cap() as nat, T::width());
            assert(2 * (self.spec_cap() * T::width()) == (2 * self.spec_cap()) * T::width())
                by (nonlinear_arith);
            assert(2 * self.spec_cap() <= (2 * self.spec_cap()) * T::width()) by (nonlinear_arith)
                requires
                    T::width() >= 1,
            ;
        }
        let new_cap: u64 = self.cap * 2;
        let new_file_size: u64 = new_cap * (T::size() as u64);
        match self.commit(&Change::Resize { len: new_file_size }) {
            Err(e) => Err(e),
            Ok(()) => {
                self.cap = new_cap;
                proof {
                    lemma_decoded_after_resize::<T>(
                        old(self).image(),
                        self.spec_len() as nat,
                        new_file_size as nat,
                    );
                }
                Ok(())
            },
        }
    }

    /// Doubles the capacity if every slot is taken.
    fn expand_if_needed(&mut self) -> (expanded: Result<(), Error>)
        requires
            old(self).wf(),
            !old(self).is_broken(),
            !old(self).is_full(),
        ensures
            final(self).wf(),
            final(self).spec_len() == old(self).spec_len(),
            final(self).spec_shadow_count() <= old(self).spec_shadow_count(),
            expanded is Ok
                ==> !final(self).is_broken() && final(self).spec_len() < final(self).spec_cap()
                    && final(self).spec_cap() == (if old(self).spec_len() == old(self).spec_cap() {
                2 * old(self).spec_cap()
            } else {
                old(self).spec_cap() as int
            }) && final(self)@ == old(self)@,
            expanded matches Err(e) ==> old(self).reports(e) && final(self).is_broken() && final(
                self).spec_cap() == old(self).spec_cap(),
            old(self).bytes_after_push() <= S::span() ==> expanded is Ok && final(
                self).spec_shadow_count() == old(self).spec_shadow_count(),
    {
        if self.len == self.cap {
            proof {
                assert(2 * (self.spec_cap() * T::width()) == 2 * self.spec_cap() * T::width())
                    by (nonlinear_arith);
            }
            self.expand()
        } else {
            Ok(())
        }
    }

    /// Reads the element in the slot at byte offset `offset`.
    fn read_at(&mut self, offset: u64) -> (read: Result<T, Error>)
        requires
            old(self).wf(),
            !old(self).is_broken(),
            offset + T::width() <= old(self).byte_cap(),
        ensures
            final(self).wf(),
            !final(self).is_broken(),
            final(self).image() == old(self).image(),
            final(self).spec_len() == old(self).spec_len(),
            final(self).spec_cap() == old(self).spec_cap(),
            final(self).spec_shadow_count() <= old(self).spec_shadow_count(),
            read matches Ok(value) ==> value == T::decoding(
                old(self).image().subrange(offset as int, offset + T::width()),
            ),
            read matches Err(e) ==> old(self).reports(e),
            S::span() > 0
                ==> read is Ok && final(self).spec_shadow_count() == old(self).spec_shadow_count(),
    {
        proof {
            T::lemma_codec();
        }
        let element_size: usize = T::size();
        let buf: Vec<u8> = match self.read_bytes(offset, element_size) {
            Err(e) => {
                return Err(e);
            },
            Ok(buf) => buf,
        };
        de_from::<T>(buf.as_slice())
    }

    /// Writes `value` into the slot at byte offset `offset`, in the primary
    /// and in every shadow.
    fn write_at(&mut self, offset: u64, value: &T) -> (written: Result<(), Error>)
        requires
            old(self).wf(),
            !old(self).is_broken(),
            offset + T::width() <= old(self).byte_cap(),
        ensures
            final(self).wf(),
            final(self).spec_len() == old(self).spec_len(),
            final(self).spec_cap() == old(self).spec_cap(),
            final(self).spec_shadow_count() <= old(self).spec_shadow_count(),
            written is Ok ==> !final(self).is_broken() && final(self).image() == overlay(
                old(self).image(),
                offset as nat,
                value.encoding(),
            ),
            written matches Err(e) ==> old(self).reports(e) && final(self).is_broken(),
            old(self).byte_cap() <= S::span()
                ==> written is Ok && final(self).spec_shadow_count()
                    == old(self).spec_shadow_count(),
    {
        proof {
            T::lemma_codec();
        }
        let value_ser: Vec<u8> = ser_to::<T>(value);
        self.commit(&Change::Write { offset, data: value_ser.as_slice() })
    }

    /// Reads the element at `index`.
    ///
    /// Fails with `OutOfRange` when `index` is not below the length, and
    /// with a fault when the primary and every shadow fail to deliver it.
    pub fn try_get(&mut self, index: u64) -> (got: Result<T, Error>)
        requires
            old(self).wf(),
        ensures
            final(self).wf(),
            final(self)@ == old(self)@,
            final(self).image() == old(self).image(),
            final(self).spec_len() == old(self).spec_len(),
            final(self).spec_cap() == old(self).spec_cap(),
            final(self).is_broken() == old(self).is_broken(),
            final(self).spec_shadow_count() <= old(self).spec_shadow_count(),
            old(self).is_broken() ==> got == Err::<T, Error>(Error::IrrecoverableState)
                && *final(self) == *old(self),
            !old(self).is_broken() && index >= old(self).spec_len() ==> got == Err::<T, Error>(
                Error::OutOfRange(index, old(self).spec_len()),
            ) && *final(self) == *old(self),
            got matches Ok(value) ==> !old(self).is_broken() && index < old(self).spec_len()
                && value == old(self)@[index as int],
            got matches Err(e) ==> old(self).is_broken() || index >= old(self).spec_len()
                || old(self).reports(e),
            !old(self).is_broken() && index < old(self).spec_len() && old(self).byte_cap()
                <= S::span()
                    ==> got is Ok && final(self).spec_shadow_count()
                        == old(self).spec_shadow_count(),
    {
        if self.broken {
            return Err(Error::IrrecoverableState);
        }
        if !self.bounds_check(index) {
            return Err(Error::OutOfRange(index, self.len));
        }
        proof {
            T::lemma_codec();
            lemma_slot_bounds(index as nat, self.spec_cap() as nat, T::width());
            assert(self.byte_cap() >= 1);
        }
        let offset_index: u64 = match self.calc_index(index) {
            Err(e) => {
                return Err(e);
            },
            Ok(offset) => offset,
        };
        let shadows_before: usize = self.shadows.len();
        match self.read_at(offset_index) {
            Err(e) => Err(e),
            Ok(value) => {
                self.restore_shadows(shadows_before);
                Ok(value)
            },
        }
    }

    /// Reads the element at `index`, which must be the index of an element
    /// that the stores can deliver.
    pub fn get(&mut self, index: u64) -> (value: T)
        requires
            old(self).wf(),
            !old(self).is_broken(),
            index < old(self).spec_len(),
            old(self).byte_cap() <= S::span(),
        ensures
            final(self).wf(),
            !final(self).is_broken(),
            final(self)@ == old(self)@,
            final(self).spec_cap() == old(self).spec_cap(),
            final(self).spec_shadow_count() == old(self).spec_shadow_count(),
            value == old(self)@[index as int],
            final(self).spec_len() == old(self).spec_len(),
    {
        self.try_get(index).unwrap()
    }

    /// Puts `value` in place of the element at `index`.
    ///
    /// Fails with `OutOfRange` when `index` is not below the length, and
    /// with a fault, leaving the instance broken, when no store is left to
    /// take the write.
    pub fn try_set(&mut self, index: u64, value: &T) -> (set: Result<(), Error>)
        requires
            old(self).wf(),
        ensures
            final(self).wf(),
            final(self).spec_len() == old(self).spec_len(),
            final(self).spec_cap() == old(self).spec_cap(),
            final(self).spec_shadow_count() <= old(self).spec_shadow_count(),
            old(self).is_broken() ==> set == Err::<(), Error>(Error::IrrecoverableState)
                && *final(self) == *old(self),
            !old(self).is_broken() && index >= old(self).spec_len() ==> set == Err::<(), Error>(
                Error::OutOfRange(index, old(self).spec_len()),
            ) && *final(self) == *old(self),
            set is Ok
                ==> !old(self).is_broken() && index < old(self).spec_len()
                    && !final(self).is_broken() && final(self)@
                        == old(self)@.update(index as int, *value),
            set matches Err(e) ==> old(self).is_broken() || index >= old(self).spec_len() || (
            old(self).reports(e) && final(self).is_broken()),
            !old(self).is_broken() && index < old(self).spec_len() && old(self).byte_cap()
                <= S::span()
                    ==> set is Ok && final(self).spec_shadow_count()
                        == old(self).spec_shadow_count(),
    {
        if self.broken {
            return Err(Error::IrrecoverableState);
        }
        if !self.bounds_check(index) {
            return Err(Error::OutOfRange(index, self.len));
        }
        proof {
            T::lemma_codec();
            lemma_slot_bounds(index as nat, self.spec_cap() as nat, T::width());
            lemma_bytes_monotonic(self.spec_len() as nat, self.spec_cap() as nat, T::width());
        }
        let offset_index: u64 = match self.calc_index(index) {
            Err(e) => {
                return Err(e);
            },
            Ok(offset) => offset,
        };
        let shadows_before: usize = self.shadows.len();
        match self.write_at(offset_index, value) {
            Err(e) => Err(e),
            Ok(()) => {
                proof {
                    lemma_decoded_after_write::<T>(
                        old(self).image(),
                        self.spec_len() as nat,
                        index as nat,
                        value.encoding(),
                    );
                }
                self.restore_shadows(shadows_before);
                Ok(())
            },
        }
    }

    /// Puts `value` in place of the element at `index`, which must be the
    /// index of an element in stores that can take the write.
    pub fn set(&mut self, index: u64, value: &T)
        requires
            old(self).wf(),
            !old(self).is_broken(),
            index < old(self).spec_len(),
            old(self).byte_cap() <= S::span(),
        ensures
            final(self).wf(),
            !final(self).is_broken(),
            final(self)@ == old(self)@.update(index as int, *value),
            final(self).spec_cap() == old(self).spec_cap(),
            final(self).spec_shadow_count() == old(self).spec_shadow_count(),
            final(self).spec_len() == old(self).spec_len(),
    {
        self.try_set(index, value).unwrap()
    }

    /// Appends `value`.
    ///
    /// Fails with `PushOnFull` when every slot is taken and the capacity
    /// cannot double, and with a fault, leaving the instance broken, when no
    /// store is left to take the write.
    pub fn try_push(&mut self, value: &T) -> (pushed: Result<(), Error>)
        requires
            old(self).wf(),
        ensures
            final(self).wf(),
            final(self).spec_shadow_count() <= old(self).spec_shadow_count(),
            old(self).is_broken() ==> pushed == Err::<(), Error>(Error::IrrecoverableState)
                && *final(self) == *old(self),
            !old(self).is_broken() && old(self).is_full() ==> pushed == Err::<(), Error>(
                Error::PushOnFull,
            ) && *final(self) == *old(self),
            pushed is Ok
                ==> !old(self).is_broken() && !old(self).is_full() && !final(self).is_broken()
                    && final(self)@ == old(self)@.push(*value) && final(self).spec_len()
                == old(self).spec_len() + 1 && final(self).spec_cap() == (if old(self).spec_len()
                == old(self).spec_cap() {
                2 * old(self).spec_cap()
            } else {
                old(self).spec_cap() as int
            }),
            pushed matches Err(e)
                ==> old(self).is_broken() || old(self).is_full() || (old(self).reports(e)
                && final(self).is_broken() && final(self).spec_len() == old(self).spec_len()),
            !old(self).is_broken() && !old(self).is_full() && old(self).bytes_after_push()
                <= S::span() ==> pushed is Ok && final(self).spec_shadow_count() == old(
                self).spec_shadow_count(),
            pushed is Err
                ==> final(self).spec_cap() == old(self).spec_cap() || (old(self).spec_len()
                == old(self).spec_cap() && final(self).spec_cap() == 2 * old(self).spec_cap()),
    {
        if self.broken {
            return Err(Error::IrrecoverableState);
        }
        let shadows_before: usize = self.shadows.len();
        proof {
            T::lemma_codec();
            assert(2 * (self.spec_cap() * T::width()) == 2 * self.spec_cap() * T::width())
                by (nonlinear_arith);
        }
        if self.len == self.cap && self.cap * (T::size() as u64) > u64::MAX / 2 {
            return Err(Error::PushOnFull);
        }
        match self.expand_if_needed() {
            Err(e) => {
                return Err(surfaced(e, shadows_before));
            },
            Ok(()) => {},
        }
        match self.append(value) {
            Err(e) => Err(surfaced(e, shadows_before)),
            Ok(()) => {
                self.restore_shadows(shadows_before);
                Ok(())
            },
        }
    }

    /// Appends `value` to an instance that has room for it, in stores that
    /// can take the write.
    pub fn push(&mut self, value: &T)
        requires
            old(self).wf(),
            !old(self).is_broken(),
            !old(self).is_full(),
            old(self).bytes_after_push() <= S::span(),
        ensures
            final(self).wf(),
            !final(self).is_broken(),
            final(self)@ == old(self)@.push(*value),
            final(self).spec_len() == old(self).spec_len() + 1,
            final(self).spec_shadow_count() == old(self).spec_shadow_count(),
            final(self).spec_cap() == (if old(self).spec_len() == old(self).spec_cap() {
                2 * old(self).spec_cap()
            } else {
                old(self).spec_cap() as int
            }),
    {
        self.try_push(value).unwrap()
    }

    /// Removes the last element and returns it.
    ///
    /// Fails with `PopOnEmpty` when there is no element, and with a fault
    /// when the primary and every shadow fail to deliver it; either way the
    /// elements stay as they were.
    pub fn try_pop(&mut self) -> (popped: Result<T, Error>)
        requires
            old(self).wf(),
        ensures
            final(self).wf(),
            final(self).image() == old(self).image(),
            final(self).spec_cap() == old(self).spec_cap(),
            final(self).is_broken() == old(self).is_broken(),
            final(self).spec_shadow_count() <= old(self).spec_shadow_count(),
            old(self).is_broken() ==> popped == Err::<T, Error>(Error::IrrecoverableState)
                && *final(self) == *old(self),
            !old(self).is_broken() && old(self).spec_len() == 0 ==> popped == Err::<T, Error>(
                Error::PopOnEmpty,
            ) && *final(self) == *old(self),
            popped matches Ok(value) ==> !old(self).is_broken() && old(self).spec_len() > 0
                && value == old(self)@.last() && final(self)@ == old(self)@.drop_last()
                    && final(self).spec_len() == old(self).spec_len() - 1,
            popped matches Err(e)
                ==> final(self)@ == old(self)@ && final(self).spec_len() == old(self).spec_len()
                    && (old(self).is_broken() || old(self).spec_len() == 0 || old(self).reports(e)),
            !old(self).is_broken() && old(self).spec_len() > 0 && old(self).byte_cap()
                <= S::span()
                    ==> popped is Ok && final(self).spec_shadow_count()
                        == old(self).spec_shadow_count(),
    {
        if self.broken {
            return Err(Error::IrrecoverableState);
        }
        if self.len > 0 {
            proof {
                T::lemma_codec();
                lemma_slot_bounds(
                    (self.spec_len() - 1) as nat,
                    self.spec_cap() as nat,
                    T::width(),
                );
                assert(self.byte_cap() >= 1);
            }
            let offset: u64 = (self.len - 1) * (T::size() as u64);
            let shadows_before: usize = self.shadows.len();
            match self.read_at(offset) {
                Err(e) => Err(e),
                Ok(value) => {
                    self.len = self.len - 1;
                    assert(self@ =~= old(self)@.drop_last());
                    self.restore_shadows(shadows_before);
                    Ok(value)
                },
            }
        } else {
            Err(Error::PopOnEmpty)
        }
    }

    /// Removes the last element of an instance that has one, in stores that
    /// can deliver it, and returns it.
    pub fn pop(&mut self) -> (value: T)
        requires
            old(self).wf(),
            !old(self).is_broken(),
            old(self).spec_len() > 0,
            old(self).byte_cap() <= S::span(),
        ensures
            final(self).wf(),
            !final(self).is_broken(),
            value == old(self)@.last(),
            final(self)@ == old(self)@.drop_last(),
            final(self).spec_cap() == old(self).spec_cap(),
            final(self).spec_shadow_count() == old(self).spec_shadow_count(),
            final(self).spec_len() == old(self).spec_len() - 1,
    {
        self.try_pop().unwrap()
    }
}

impl<T: Element, S: Storage> VecFile<T, S> {
    /// Whether the capacity can grow, by doubling, to `need` slots without
    /// leaving 64 bits of offset.
    pub open spec fn can_hold(&self, need: nat) -> bool {
        grown(self.spec_cap() as nat, need) * T::width() <= u64::MAX
    }

    /// Whether a capacity of `cap` slots can grow, by doubling, to `need`
    /// slots without leaving 64 bits of offset.
    fn growth_fits(cap: u64, need: u64) -> (feasible: bool)
        requires
            is_capacity(cap as nat),
            cap * T::width() <= u64::MAX,
        ensures
            feasible == (grown(cap as nat, need as nat) * T::width() <= u64::MAX),
    {
        proof {
            T::lemma_codec();
        }
        let width: u64 = T::size() as u64;
        let mut reached: u64 = cap;
        while reached < need
            invariant
                is_capacity(reached as nat),
                reached * T::width() <= u64::MAX,
                width == T::width(),
                grown(reached as nat, need as nat) == grown(cap as nat, need as nat),
                T::width() >= 1,
            decreases
                    (if need > reached {
                        need - reached
                    } else {
                        0
                    }),
        {
            proof {
                lemma_grown(reached as nat, need as nat);
                lemma_capacity_doubles(reached as nat);
                assert(2 * (reached * T::width()) == (2 * reached) * T::width())
                    by (nonlinear_arith);
                assert(2 * reached <= (2 * reached) * T::width()) by (nonlinear_arith)
                    requires
                        T::width() >= 1,
                ;
            }
            if reached * width > u64::MAX / 2 {
                proof {
                    lemma_grown((2 * reached) as nat, need as nat);
                    lemma_bytes_monotonic(
                        (2 * reached) as nat,
                        grown((2 * reached) as nat, need as nat),
                        T::width(),
                    );
                }
                return false;
            }
            reached = reached * 2;
        }
        proof {
            lemma_grown(reached as nat, need as nat);
        }
        true
    }

    /// Makes room for at least `additional` more elements: the capacity
    /// doubles until `len + additional` slots fit.
    ///
    /// Fails with `IndexExceedsMaxU64`, before any store is touched, when so
    /// many slots would leave 64 bits of offset.
    pub fn reserve(&mut self, additional: u64) -> (reserved: Result<(), Error>)
        requires
            old(self).wf(),
        ensures
            final(self).wf(),
            final(self).spec_len() == old(self).spec_len(),
            final(self).spec_shadow_count() <= old(self).spec_shadow_count(),
            old(self).is_broken() ==> reserved == Err::<(), Error>(Error::IrrecoverableState)
                && *final(self) == *old(self),
            !old(self).is_broken() && !old(self).can_hold(
                (old(self).spec_len() + additional) as nat,
            ) ==> reserved == Err::<(), Error>(Error::IndexExceedsMaxU64) && *final(self)
                == *old(self),
            reserved is Ok
                ==> !old(self).is_broken() && !final(self).is_broken()
                    && old(self).can_hold((old(self).spec_len() + additional) as nat)
                        && final(self)@ == old(self)@
                && final(self).spec_cap() == grown(
                old(self).spec_cap() as nat,
                (old(self).spec_len() + additional) as nat,
            ),
            reserved matches Err(e) ==> old(self).is_broken() || !old(self).can_hold(
                (old(self).spec_len() + additional) as nat,
            ) || (old(self).reports(e) && final(self).is_broken()),
            !old(self).is_broken() && old(self).can_hold(
                (old(self).spec_len() + additional) as nat,
            ) && grown(old(self).spec_cap() as nat, (old(self).spec_len() + additional) as nat)
                * T::width() <= S::span() ==> reserved is Ok && final(self).spec_shadow_count()
                == old(self).spec_shadow_count(),
    {
        if self.broken {
            return Err(Error::IrrecoverableState);
        }
        let shadows_before: usize = self.shadows.len();
        proof {
            T::lemma_codec();
            lemma_capacity_doubles(self.spec_cap() as nat);
        }
        let ghost need = (self.spec_len() + additional) as nat;
        let needed_cap: u64 = match self.len.checked_add(additional) {
            None => {
                proof {
                    lemma_grown(self.spec_cap() as nat, need);
                    lemma_bytes_monotonic(need, grown(self.spec_cap() as nat, need), T::width());
                    assert(need <= need * T::width()) by (nonlinear_arith)
                        requires
                            T::width() >= 1,
                    ;
                }
                return Err(Error::IndexExceedsMaxU64);
            },
            Some(needed) => needed,
        };
        if !Self::growth_fits(self.cap, needed_cap) {
            return Err(Error::IndexExceedsMaxU64);
        }
        let ghost target = grown(self.spec_cap() as nat, need);
        while self.cap < needed_cap
            invariant
                shadows_before == old(self).spec_shadow_count(),
                self.wf(),
                !self.is_broken(),
                !old(self).is_broken(),
                need == needed_cap,
                need == old(self).spec_len() + additional,
                old(self).can_hold(need),
                target == grown(old(self).spec_cap() as nat, need),
                target == grown(self.spec_cap() as nat, need),
                target * T::width() <= u64::MAX,
                self@ == old(self)@,
                self.spec_len() == old(self).spec_len(),
                self.spec_shadow_count() <= old(self).spec_shadow_count(),
                target * T::width() <= S::span()
                    ==> self.spec_shadow_count() == old(self).spec_shadow_count(),
            decreases
                    (if needed_cap > self.spec_cap() {
                        needed_cap - self.spec_cap()
                    } else {
                        0
                    }),
        {
            proof {
                lemma_capacity_doubles(self.spec_cap() as nat);
                lemma_grown(self.spec_cap() as nat, need);
                lemma_grown((2 * self.spec_cap()) as nat, need);
                lemma_bytes_monotonic((2 * self.spec_cap()) as nat, target, T::width());
                assert(2 * (self.spec_cap() * T::width()) == (2 * self.spec_cap()) * T::width())
                    by (nonlinear_arith);
            }
            match self.expand() {
                Err(e) => {
                    return Err(surfaced(e, shadows_before));
                },
                Ok(()) => {},
            }
        }
        proof {
            lemma_grown(self.spec_cap() as nat, need);
        }
        self.restore_shadows(shadows_before);
        Ok(())
    }

    /// Writes `value` into the first free slot and counts it in.
    fn append(&mut self, value: &T) -> (appended: Result<(), Error>)
        requires
            old(self).wf(),
            !old(self).is_broken(),
            old(self).spec_len() < old(self).spec_cap(),
        ensures
            final(self).wf(),
            final(self).spec_cap() == old(self).spec_cap(),
            final(self).spec_shadow_count() <= old(self).spec_shadow_count(),
            appended is Ok ==> !final(self).is_broken() && final(self)@ == old(self)@.push(*value)
                && final(self).spec_len() == old(self).spec_len() + 1,
            appended matches Err(e) ==> old(self).reports(e) && final(self).is_broken(),
            old(self).byte_cap() <= S::span()
                ==> appended is Ok && final(self).spec_shadow_count()
                    == old(self).spec_shadow_count(),
            appended is Err ==> final(self).spec_len() == old(self).spec_len(),
    {
        proof {
            T::lemma_codec();
            lemma_slot_bounds(self.spec_len() as nat, self.spec_cap() as nat, T::width());
            assert((self.spec_len() + 1) * T::width() == self.spec_len() * T::width() + T::width())
                by (nonlinear_arith);
        }
        let offset: u64 = self.len * (T::size() as u64);
        match self.write_at(offset, value) {
            Err(e) => Err(e),
            Ok(()) => {
                proof {
                    lemma_decoded_after_append::<T>(
                        old(self).image(),
                        self.spec_len() as nat,
                        value.encoding(),
                    );
                }
                self.len = self.len + 1;
                Ok(())
            },
        }
    }

    /// Sets the length to `new_len`: elements beyond it are dropped, and
    /// where there were fewer, copies of `value` fill up.
    ///
    /// Fails with `IndexExceedsMaxU64`, before any store is touched, when
    /// `new_len` slots would leave 64 bits of offset.
    pub fn resize(&mut self, new_len: u64, value: &T) -> (resized_to: Result<(), Error>)
        requires
            old(self).wf(),
        ensures
            final(self).wf(),
            final(self).spec_shadow_count() <= old(self).spec_shadow_count(),
            old(self).is_broken() ==> resized_to == Err::<(), Error>(Error::IrrecoverableState)
                && *final(self) == *old(self),
            !old(self).is_broken() && !old(self).can_hold(new_len as nat) ==> resized_to == Err::<
                (),
                Error,
            >(Error::IndexExceedsMaxU64) && *final(self) == *old(self),
            resized_to is Ok
                ==> !old(self).is_broken() && !final(self).is_broken()
                    && old(self).can_hold(new_len as nat) && final(self)@ == resized(
                old(self)@,
                new_len as nat,
                *value,
            ) && final(self).spec_len() == new_len && final(self).spec_cap() == grown(
                old(self).spec_cap() as nat,
                new_len as nat,
            ),
            resized_to matches Err(e) ==> old(self).is_broken() || !old(self).can_hold(
                new_len as nat,
            ) || (old(self).reports(e) && final(self).is_broken()),
            !old(self).is_broken() && old(self).can_hold(new_len as nat) && grown(
                old(self).spec_cap() as nat,
                new_len as nat,
            ) * T::width() <= S::span() ==> resized_to is Ok && final(self).spec_shadow_count()
                == old(self).spec_shadow_count(),
            !old(self).is_broken() && new_len <= old(self).spec_len() ==> resized_to is Ok && final(
                self).image() == old(self).image() && final(self).shadow_images() == old(
                self).shadow_images() && final(self).spec_cap() == old(self).spec_cap(),
    {
        if self.broken {
            return Err(Error::IrrecoverableState);
        }
        let shadows_before: usize = self.shadows.len();
        proof {
            lemma_capacity_doubles(self.spec_cap() as nat);
            lemma_grown(self.spec_cap() as nat, new_len as nat);
        }
        if new_len > self.len {
            match self.reserve(new_len - self.len) {
                Err(e) => {
                    return Err(e);
                },
                Ok(()) => {},
            }
            while self.len < new_len
                invariant
                shadows_before == old(self).spec_shadow_count(),
                    self.wf(),
                    !self.is_broken(),
                    !old(self).is_broken(),
                    old(self).can_hold(new_len as nat),
                    old(self).spec_len() <= self.spec_len() <= new_len <= self.spec_cap(),
                    self.spec_cap() == grown(old(self).spec_cap() as nat, new_len as nat),
                    self@ == resized(old(self)@, self.spec_len() as nat, *value),
                    self.spec_shadow_count() <= old(self).spec_shadow_count(),
                    self.byte_cap() <= S::span()
                        ==> self.spec_shadow_count() == old(self).spec_shadow_count(),
                decreases new_len - self.len,
            {
                match self.append(value) {
                    Err(e) => {
                        return Err(surfaced(e, shadows_before));
                    },
                    Ok(()) => {},
                }
                assert(self@ =~= resized(old(self)@, self.spec_len() as nat, *value));
            }
            self.restore_shadows(shadows_before);
        } else {
            self.len = new_len;
            assert(self@ =~= resized(old(self)@, new_len as nat, *value));
        }
        Ok(())
    }

    /// Drops the elements from `new_len` on; does nothing when there are no
    /// more than `new_len`.
    pub fn truncate(&mut self, new_len: u64)
        requires
            old(self).wf(),
        ensures
            final(self).wf(),
            final(self).image() == old(self).image(),
            final(self).shadow_images() == old(self).shadow_images(),
            final(self).spec_cap() == old(self).spec_cap(),
            final(self).is_broken() == old(self).is_broken(),
            final(self).spec_len() == if old(self).spec_len() > new_len {
                new_len
            } else {
                old(self).spec_len()
            },
            final(self)@ == if old(self).spec_len() > new_len {
                old(self)@.take(new_len as int)
            } else {
                old(self)@
            },
    {
        if self.len > new_len {
            self.len = new_len;
            assert(self@ =~= old(self)@.take(new_len as int));
            assert(self.shadow_images() == old(self).shadow_images());
        }
    }

    /// Appends the elements of `slice`, in order.
    ///
    /// Capacity for all of them is reserved at once. Fails with
    /// `IndexExceedsMaxU64`, before any store is touched, when so many slots
    /// would leave 64 bits of offset.
    pub fn try_extend_from_slice(&mut self, slice: &[T]) -> (extended: Result<(), Error>)
        requires
            old(self).wf(),
        ensures
            final(self).wf(),
            final(self).spec_shadow_count() <= old(self).spec_shadow_count(),
            old(self).is_broken() ==> extended == Err::<(), Error>(Error::IrrecoverableState)
                && *final(self) == *old(self),
            !old(self).is_broken() && !old(self).can_hold(
                (old(self).spec_len() + slice@.len()) as nat,
            ) ==> extended == Err::<(), Error>(Error::IndexExceedsMaxU64) && *final(self)
                == *old(self),
            extended is Ok
                ==> !old(self).is_broken() && !final(self).is_broken()
                    && old(self).can_hold((old(self).spec_len() + slice@.len()) as nat)
                        && final(self)@ == old(self)@ + slice@ && final(self).spec_len()
                            == old(self).spec_len() + slice@.len() && final(self).spec_cap()
                                == grown(
                old(self).spec_cap() as nat,
                (old(self).spec_len() + slice@.len()) as nat,
            ),
            extended matches Err(e) ==> old(self).is_broken() || !old(self).can_hold(
                (old(self).spec_len() + slice@.len()) as nat,
            ) || (old(self).reports(e) && final(self).is_broken()),
            !old(self).is_broken() && old(self).can_hold(
                (old(self).spec_len() + slice@.len()) as nat,
            ) && grown(old(self).spec_cap() as nat, (old(self).spec_len() + slice@.len()) as nat)
                * T::width() <= S::span() ==> extended is Ok && final(self).spec_shadow_count()
                == old(self).spec_shadow_count(),
    {
        if self.broken {
            return Err(Error::IrrecoverableState);
        }
        let shadows_before: usize = self.shadows.len();
        proof {
            lemma_capacity_doubles(self.spec_cap() as nat);
            lemma_grown(self.spec_cap() as nat, (self.spec_len() + slice@.len()) as nat);
        }
        match self.reserve(slice.len() as u64) {
            Err(e) => {
                return Err(e);
            },
            Ok(()) => {},
        }
        let mut copied: usize = 0;
        while copied < slice.len()
            invariant
                shadows_before == old(self).spec_shadow_count(),
                self.wf(),
                !self.is_broken(),
                !old(self).is_broken(),
                old(self).can_hold((old(self).spec_len() + slice@.len()) as nat),
                copied <= slice@.len(),
                self.spec_len() == old(self).spec_len() + copied,
                old(self).spec_len() + slice@.len() <= self.spec_cap(),
                self.spec_cap() == grown(
                    old(self).spec_cap() as nat,
                    (old(self).spec_len() + slice@.len()) as nat,
                ),
                self@ == old(self)@ + slice@.take(copied as int),
                self.spec_shadow_count() <= old(self).spec_shadow_count(),
                self.byte_cap() <= S::span()
                    ==> self.spec_shadow_count() == old(self).spec_shadow_count(),
            decreases slice@.len() - copied,
        {
            match self.append(&slice[copied]) {
                Err(e) => {
                    return Err(surfaced(e, shadows_before));
                },
                Ok(()) => {},
            }
            copied = copied + 1;
            assert(self@ =~= old(self)@ + slice@.take(copied as int));
        }
        assert(slice@.take(copied as int) =~= slice@);
        self.restore_shadows(shadows_before);
        Ok(())
    }

    /// Appends the elements of `slice` to an instance that can hold them, in
    /// stores that can take the writes.
    pub fn extend_from_slice(&mut self, slice: &[T])
        requires
            old(self).wf(),
            !old(self).is_broken(),
            old(self).can_hold((old(self).spec_len() + slice@.len()) as nat),
            grown(old(self).spec_cap() as nat, (old(self).spec_len() + slice@.len()) as nat)
                * T::width() <= S::span(),
        ensures
            final(self).wf(),
            !final(self).is_broken(),
            final(self)@ == old(self)@ + slice@,
            final(self).spec_shadow_count() == old(self).spec_shadow_count(),
            final(self).spec_len() == old(self).spec_len() + slice@.len(),
            final(self).spec_cap() == grown(
                old(self).spec_cap() as nat,
                (old(self).spec_len() + slice@.len()) as nat,
            ),
    {
        self.try_extend_from_slice(slice).unwrap()
    }
}

impl<T: Element, S: Storage> VecFile<T, S> {
    /// Sets the length to `new_len`: elements beyond it are dropped, and
    /// where there were fewer, `f` is called once for each element that fills
    /// up, in order.
    ///
    /// Fails with `IndexExceedsMaxU64`, before any store is touched and
    /// before `f` is called, when `new_len` slots would leave 64 bits of
    /// offset.
    pub fn resize_with<F>(&mut self, new_len: u64, f: F) -> (resized_to: Result<(), Error>)
        where F: Fn() -> T
        requires
            old(self).wf(),
            f.requires(()),
        ensures
            final(self).wf(),
            final(self).spec_shadow_count() <= old(self).spec_shadow_count(),
            old(self).is_broken() ==> resized_to == Err::<(), Error>(Error::IrrecoverableState)
                && *final(self) == *old(self),
            !old(self).is_broken() && !old(self).can_hold(new_len as nat) ==> resized_to == Err::<
                (),
                Error,
            >(Error::IndexExceedsMaxU64) && *final(self) == *old(self),
            resized_to is Ok
                ==> !old(self).is_broken() && !final(self).is_broken()
                    && old(self).can_hold(new_len as nat) && final(self).spec_len() == new_len
                        && final(self).spec_cap()
                            == grown(old(self).spec_cap() as nat, new_len as nat),
            resized_to is Ok && new_len <= old(self).spec_len() ==> final(self)@ == old(self)@.take(
                new_len as int,
            ),
            resized_to is Ok && new_len > old(self).spec_len() ==> final(self)@.take(
                old(self).spec_len() as int,
            ) == old(self)@ && forall|i: int|
                old(self).spec_len() <= i < new_len ==> f.ensures((), #[trigger] final(self)@[i]),
            resized_to matches Err(e) ==> old(self).is_broken() || !old(self).can_hold(
                new_len as nat,
            ) || (old(self).reports(e) && final(self).is_broken()),
            !old(self).is_broken() && old(self).can_hold(new_len as nat) && grown(
                old(self).spec_cap() as nat,
                new_len as nat,
            ) * T::width() <= S::span() ==> resized_to is Ok && final(self).spec_shadow_count()
                == old(self).spec_shadow_count(),
            !old(self).is_broken() && new_len <= old(self).spec_len() ==> resized_to is Ok && final(
                self).image() == old(self).image() && final(self).shadow_images() == old(
                self).shadow_images() && final(self).spec_cap() == old(self).spec_cap(),
    {
        if self.broken {
            return Err(Error::IrrecoverableState);
        }
        let shadows_before: usize = self.shadows.len();
        proof {
            lemma_capacity_doubles(self.spec_cap() as nat);
            lemma_grown(self.spec_cap() as nat, new_len as nat);
        }
        if new_len > self.len {
            match self.reserve(new_len - self.len) {
                Err(e) => {
                    return Err(e);
                },
                Ok(()) => {},
            }
            while self.len < new_len
                invariant
                shadows_before == old(self).spec_shadow_count(),
                    self.wf(),
                    !self.is_broken(),
                    !old(self).is_broken(),
                    f.requires(()),
                    old(self).can_hold(new_len as nat),
                    old(self).spec_len() <= self.spec_len() <= new_len <= self.spec_cap(),
                    self.spec_cap() == grown(old(self).spec_cap() as nat, new_len as nat),
                    self@.take(old(self).spec_len() as int) == old(self)@,
                    forall|i: int|
                        old(self).spec_len() <= i < self.spec_len() ==> f.ensures(
                            (),
                            #[trigger] self@[i],
                        ),
                    self.spec_shadow_count() <= old(self).spec_shadow_count(),
                    self.byte_cap() <= S::span()
                        ==> self.spec_shadow_count() == old(self).spec_shadow_count(),
                decreases new_len - self.len,
            {
                let ghost before = self@;
                let value: T = f();
                match self.append(&value) {
                    Err(e) => {
                        return Err(surfaced(e, shadows_before));
                    },
                    Ok(()) => {},
                }
                assert(self@.take(old(self).spec_len() as int) =~= before.take(
                    old(self).spec_len() as int,
                ));
                assert forall|i: int| old(self).spec_len() <= i < self.spec_len() implies f.ensures(
                    (),
                    #[trigger] self@[i],
                ) by {
                    if i < self.spec_len() - 1 {
                        assert(self@[i] == before[i]);
                    }
                }
            }
            self.restore_shadows(shadows_before);
        } else {
            self.len = new_len;
            assert(self@ =~= old(self)@.take(new_len as int));
            assert(self.shadow_images() == old(self).shadow_images());
        }
        Ok(())
    }

    /// Puts `element` at `index` and moves the elements from there on one
    /// slot to the right, starting with the last.
    ///
    /// Fails with `OutOfRange` when `index` is above the length and with
    /// `PushOnFull` when every slot is taken and the capacity cannot double.
    /// A fault of the stores that no shadow absorbs leaves the instance
    /// broken.
    pub fn try_insert(&mut self, index: u64, element: &T) -> (inserted: Result<(), Error>)
        requires
            old(self).wf(),
        ensures
            final(self).wf(),
            final(self).spec_shadow_count() <= old(self).spec_shadow_count(),
            old(self).is_broken() ==> inserted == Err::<(), Error>(Error::IrrecoverableState)
                && *final(self) == *old(self),
            !old(self).is_broken() && index > old(self).spec_len() ==> inserted == Err::<
                (),
                Error,
            >(Error::OutOfRange(index, old(self).spec_len())) && *final(self) == *old(self),
            !old(self).is_broken() && index <= old(self).spec_len() && old(self).is_full()
                ==> inserted == Err::<(), Error>(Error::PushOnFull) && *final(self) == *old(self),
            inserted is Ok
                ==> !old(self).is_broken() && index <= old(self).spec_len() && !old(self).is_full()
                    && !final(self).is_broken() && final(self)@ == old(self)@.insert(
                index as int,
                *element,
            ) && final(self).spec_len() == old(self).spec_len() + 1 && final(self).spec_cap() == (
            if old(self).spec_len() == old(self).spec_cap() {
                2 * old(self).spec_cap()
            } else {
                old(self).spec_cap() as int
            }),
            inserted matches Err(e) ==> old(self).is_broken() || index > old(self).spec_len()
                || old(self).is_full() || (old(self).reports(e) && final(self).is_broken()),
            !old(self).is_broken() && index <= old(self).spec_len() && !old(self).is_full()
                && old(self).bytes_after_push() <= S::span() ==> inserted is Ok && final(
                self).spec_shadow_count() == old(self).spec_shadow_count(),
            inserted is Err
                ==> final(self).spec_cap() == old(self).spec_cap() || (old(self).spec_len()
                == old(self).spec_cap() && final(self).spec_cap() == 2 * old(self).spec_cap()),
    {
        if self.broken {
            return Err(Error::IrrecoverableState);
        }
        let shadows_before: usize = self.shadows.len();
        if index > self.len {
            return Err(Error::OutOfRange(index, self.len));
        }
        proof {
            T::lemma_codec();
            assert(2 * (self.spec_cap() * T::width()) == 2 * self.spec_cap() * T::width())
                by (nonlinear_arith);
        }
        if self.len == self.cap && self.cap * (T::size() as u64) > u64::MAX / 2 {
            return Err(Error::PushOnFull);
        }
        match self.expand_if_needed() {
            Err(e) => {
                return Err(surfaced(e, shadows_before));
            },
            Ok(()) => {},
        }
        let width: u64 = T::size() as u64;
        let ghost count = (self.spec_len() + 1) as nat;
        proof {
            lemma_bytes_monotonic(count, self.spec_cap() as nat, T::width());
        }
        // Shuffle all elements to the right, the last one first.
        let mut i: u64 = self.len;
        while i > index
            invariant
                shadows_before == old(self).spec_shadow_count(),
                self.wf(),
                !self.is_broken(),
                !old(self).is_broken(),
                width == T::width(),
                index <= i <= self.spec_len(),
                self.spec_len() == old(self).spec_len(),
                self.spec_len() < self.spec_cap(),
                count == self.spec_len() + 1,
                count * T::width() <= self.byte_cap(),
                old(self).bytes_after_push() == self.byte_cap(),
                self.spec_cap() == (if old(self).spec_len() == old(self).spec_cap() {
                    2 * old(self).spec_cap()
                } else {
                    old(self).spec_cap() as int
                }),
                forall|k: int|
                    0 <= k < i ==> #[trigger] decoded::<T>(self.image(), count)[k] == old(self)@[k],
                forall|k: int|
                    i < k < count
                        ==> #[trigger] decoded::<T>(self.image(), count)[k] == old(self)@[k - 1],
                self.spec_shadow_count() <= old(self).spec_shadow_count(),
                old(self).bytes_after_push() <= S::span() ==> self.spec_shadow_count() == old(
                    self).spec_shadow_count(),
            decreases i,
        {
            proof {
                T::lemma_codec();
                lemma_slot_bounds(i as nat, count, T::width());
                lemma_slot_bounds((i - 1) as nat, count, T::width());
            }
            let ghost before = self.image();
            let curr: T = match self.read_at((i - 1) * width) {
                Err(e) => {
                    self.broken = true;
                    return Err(surfaced(e, shadows_before));
                },
                Ok(curr) => curr,
            };
            assert(curr == decoded::<T>(before, count)[i - 1]);
            match self.write_at(i * width, &curr) {
                Err(e) => {
                    return Err(surfaced(e, shadows_before));
                },
                Ok(()) => {},
            }
            proof {
                lemma_decoded_after_write::<T>(before, count, i as nat, curr.encoding());
            }
            i = i - 1;
        }
        proof {
            lemma_slot_bounds(index as nat, count, T::width());
        }
        let ghost before = self.image();
        match self.write_at(index * width, element) {
            Err(e) => {
                return Err(surfaced(e, shadows_before));
            },
            Ok(()) => {},
        }
        proof {
            lemma_decoded_after_write::<T>(before, count, index as nat, element.encoding());
        }
        self.len = self.len + 1;
        assert(self@ =~= old(self)@.insert(index as int, *element));
        self.restore_shadows(shadows_before);
        Ok(())
    }

    /// Puts `element` at `index`, which must not be above the length, in an
    /// instance that has room for it and stores that can take the writes.
    pub fn insert(&mut self, index: u64, element: &T)
        requires
            old(self).wf(),
            !old(self).is_broken(),
            index <= old(self).spec_len(),
            !old(self).is_full(),
            old(self).bytes_after_push() <= S::span(),
        ensures
            final(self).wf(),
            !final(self).is_broken(),
            final(self)@ == old(self)@.insert(index as int, *element),
            final(self).spec_shadow_count() == old(self).spec_shadow_count(),
            final(self).spec_cap() == (if old(self).spec_len() == old(self).spec_cap() {
                2 * old(self).spec_cap()
            } else {
                old(self).spec_cap() as int
            }),
            final(self).spec_len() == old(self).spec_len() + 1,
    {
        self.try_insert(index, element).unwrap()
    }

    /// Takes the element at `index` out and moves the elements after it one
    /// slot to the left.
    ///
    /// Fails with `OutOfRange` when `index` is not below the length. A fault
    /// of the stores that no shadow absorbs leaves the elements as they were
    /// if it comes before the first move, and the instance broken after.
    pub fn try_remove(&mut self, index: u64) -> (removed: Result<T, Error>)
        requires
            old(self).wf(),
        ensures
            final(self).wf(),
            final(self).spec_cap() == old(self).spec_cap(),
            final(self).spec_shadow_count() <= old(self).spec_shadow_count(),
            old(self).is_broken() ==> removed == Err::<T, Error>(Error::IrrecoverableState)
                && *final(self) == *old(self),
            !old(self).is_broken() && index >= old(self).spec_len() ==> removed == Err::<T, Error>(
                Error::OutOfRange(index, old(self).spec_len()),
            ) && *final(self) == *old(self),
            removed matches Ok(value) ==> !old(self).is_broken() && index < old(self).spec_len()
                && !final(self).is_broken() && value == old(self)@[index as int] && final(self)@
                == old(self)@.remove(index as int) && final(self).spec_len()
                    == old(self).spec_len() - 1,
            removed matches Err(e) ==> old(self).is_broken() || index >= old(self).spec_len() || (
            old(self).reports(e) && (final(self).is_broken() || final(self)@ == old(self)@)),
            !old(self).is_broken() && index < old(self).spec_len() && old(self).byte_cap()
                <= S::span()
                    ==> removed is Ok && final(self).spec_shadow_count()
                        == old(self).spec_shadow_count(),
    {
        if self.broken {
            return Err(Error::IrrecoverableState);
        }
        let shadows_before: usize = self.shadows.len();
        if !self.bounds_check(index) {
            return Err(Error::OutOfRange(index, self.len));
        }
        let width: u64 = T::size() as u64;
        let ghost count = self.spec_len() as nat;
        proof {
            T::lemma_codec();
            lemma_bytes_monotonic(count, self.spec_cap() as nat, T::width());
            lemma_slot_bounds(index as nat, count, T::width());
            assert(self.byte_cap() >= 1);
        }
        let ret_element: T = match self.read_at(index * width) {
            Err(e) => {
                return Err(surfaced(e, shadows_before));
            },
            Ok(value) => value,
        };
        let mut i: u64 = index;
        while i < self.len - 1
            invariant
                shadows_before == old(self).spec_shadow_count(),
                self.wf(),
                !self.is_broken(),
                !old(self).is_broken(),
                width == T::width(),
                index <= i < self.spec_len(),
                self.spec_len() == old(self).spec_len(),
                self.spec_cap() == old(self).spec_cap(),
                count == self.spec_len(),
                count * T::width() <= self.byte_cap(),
                self.byte_cap() >= 1,
                forall|k: int| 0 <= k < index ==> #[trigger] self@[k] == old(self)@[k],
                forall|k: int| index <= k < i ==> #[trigger] self@[k] == old(self)@[k + 1],
                forall|k: int| i <= k < count ==> #[trigger] self@[k] == old(self)@[k],
                self.spec_shadow_count() <= old(self).spec_shadow_count(),
                self.byte_cap() <= S::span()
                    ==> self.spec_shadow_count() == old(self).spec_shadow_count(),
            decreases self.spec_len() - i,
        {
            proof {
                T::lemma_codec();
                lemma_slot_bounds(i as nat, count, T::width());
                lemma_slot_bounds((i + 1) as nat, count, T::width());
            }
            let ghost before = self.image();
            let ghost view_before = self@;
            let curr: T = match self.read_at((i + 1) * width) {
                Err(e) => {
                    self.broken = true;
                    return Err(surfaced(e, shadows_before));
                },
                Ok(curr) => curr,
            };
            assert(curr == view_before[i + 1]);
            match self.write_at(i * width, &curr) {
                Err(e) => {
                    return Err(surfaced(e, shadows_before));
                },
                Ok(()) => {},
            }
            proof {
                lemma_decoded_after_write::<T>(before, count, i as nat, curr.encoding());
                assert(self@ == view_before.update(i as int, curr));
                assert forall|k: int| index <= k < i + 1 implies #[trigger] self@[k] == old(
                    self)@[k + 1] by {
                    if k < i {
                        assert(self@[k] == view_before[k]);
                    }
                }
                assert forall|k: int| 0 <= k < index implies #[trigger] self@[k]
                    == old(self)@[k] by {
                    assert(self@[k] == view_before[k]);
                }
                assert forall|k: int| i + 1 <= k < count implies #[trigger] self@[k] == old(
                    self)@[k] by {
                    assert(self@[k] == view_before[k]);
                }
            }
            i = i + 1;
        }
        let ghost shifted = self@;
        self.len = self.len - 1;
        assert(self@ =~= old(self)@.remove(index as int)) by {
            assert forall|k: int| 0 <= k < count - 1 implies #[trigger] self@[k]
                == old(self)@.remove(index as int)[k] by {
                assert(self@[k] == shifted[k]);
            }
        }
        self.restore_shadows(shadows_before);
        Ok(ret_element)
    }

    /// Takes out the element at `index`, which must be the index of an
    /// element, in stores that can deliver it and take the writes.
    pub fn remove(&mut self, index: u64) -> (value: T)
        requires
            old(self).wf(),
            !old(self).is_broken(),
            index < old(self).spec_len(),
            old(self).byte_cap() <= S::span(),
        ensures
            final(self).wf(),
            !final(self).is_broken(),
            value == old(self)@[index as int],
            final(self)@ == old(self)@.remove(index as int),
            final(self).spec_shadow_count() == old(self).spec_shadow_count(),
            final(self).spec_cap() == old(self).spec_cap(),
            final(self).spec_len() == old(self).spec_len() - 1,
    {
        self.try_remove(index).unwrap()
    }
}

/// Whether two buffers hold the same elements in their first `len` slots.
pub fn same_elements<T: Element>(ours: &[u8], theirs: &[u8], len: usize) -> (same: bool)
    requires
        len * T::width() <= ours@.len(),
        len * T::width() <= theirs@.len(),
    ensures
        same == (decoded::<T>(ours@, len as nat) == decoded::<T>(theirs@, len as nat)),
{
    proof {
        T::lemma_codec();
    }
    let width: usize = T::size();
    let held: usize = ours.len();
    let mut k: usize = 0;
    while k < len
        invariant
            k <= len,
            held == ours@.len(),
            width == T::width(),
            width >= 1,
            len * T::width() <= ours@.len(),
            len * T::width() <= theirs@.len(),
            forall|j: int|
                0 <= j < k ==> decoded::<T>(ours@, len as nat)[j] == decoded::<T>(
                    theirs@,
                    len as nat,
                )[j],
        decreases len - k,
    {
        proof {
            lemma_slot_bounds(k as nat, len as nat, T::width());
            assert(k * width + width <= ours@.len());
            assert(k * width + width <= theirs@.len());
        }
        let start: usize = k * width;
        let e1: T = T::decode(slice_subrange(ours, start, start + width));
        let e2: T = T::decode(slice_subrange(theirs, start, start + width));
        assert(e1 == decoded::<T>(ours@, len as nat)[k as int]);
        assert(e2 == decoded::<T>(theirs@, len as nat)[k as int]);
        if !e1.same(&e2) {
            return false;
        }
        k = k + 1;
    }
    assert(decoded::<T>(ours@, len as nat) =~= decoded::<T>(theirs@, len as nat));
    true
}

/// A cursor over the elements of a `VecFile`, from the first on.
///
/// The cursor holds a position and the length at the time it was made, not
/// the instance itself: every step names the instance to read from, and
/// reads at the cursor's own position. Cursors over one instance therefore
/// do not disturb one another.
pub struct VecFileIterator {
    len: u64,
    counter: u64,
}

impl VecFileIterator {
    /// The number of elements the cursor goes over.
    pub closed spec fn spec_len(&self) -> u64 {
        self.len
    }

    /// The index of the element that the next step reads.
    pub closed spec fn position(&self) -> u64 {
        self.counter
    }

    /// Reads the element at the cursor's position from `source` and moves
    /// on, or returns `None` once the cursor has gone over all its elements.
    ///
    /// An element that cannot be read leaves the cursor where it is.
    pub fn next<T: Element, S: Storage>(&mut self, source: &mut VecFile<T, S>) -> (item: Result<
        Option<T>,
        Error,
    >)
        requires
            old(source).wf(),
        ensures
            final(source).wf(),
            final(source)@ == old(source)@,
            final(source).image() == old(source).image(),
            final(source).spec_len() == old(source).spec_len(),
            final(source).spec_cap() == old(source).spec_cap(),
            final(source).is_broken() == old(source).is_broken(),
            final(source).spec_shadow_count() <= old(source).spec_shadow_count(),
            final(self).spec_len() == old(self).spec_len(),
            old(self).position() >= old(self).spec_len() ==> item == Ok::<Option<T>, Error>(None),
            item matches Ok(None) ==> old(self).position() >= old(self).spec_len() && final(
                self).position() == old(self).position() && *final(source) == *old(source),
            item matches Ok(Some(value)) ==> !old(source).is_broken() && old(self).position() < old(
                self).spec_len() && old(self).position() < old(source).spec_len() && value
                    == old(source)@[old(self).position() as int] && final(self).position()
                        == old(self).position() + 1,
            item matches Err(e)
                ==> final(self).position() == old(self).position()
                    && old(self).position() < old(self).spec_len() && (if old(source).is_broken() {
                e == Error::IrrecoverableState
            } else if old(self).position() >= old(source).spec_len() {
                e == Error::OutOfRange(old(self).position(), old(source).spec_len())
            } else {
                old(source).reports(e)
            }),
            old(self).position() < old(self).spec_len()
                && old(self).position() < old(source).spec_len() && !old(source).is_broken()
                    && old(source).byte_cap() <= S::span()
                ==> item is Ok && final(source).spec_shadow_count()
                    == old(source).spec_shadow_count(),
    {
        if self.counter < self.len {
            match source.try_get(self.counter) {
                Err(e) => Err(e),
                Ok(value) => {
                    self.counter = self.counter + 1;
                    Ok(Some(value))
                },
            }
        } else {
            Ok(None)
        }
    }
}

impl<T: Element, S: Storage> VecFile<T, S> {
    /// Every shadow holds, in its first `len` slots, the elements of the
    /// primary.
    pub open spec fn shadows_equivalent(&self) -> bool {
        forall|i: int|
            0 <= i < self.shadow_images().len() ==> decoded::<T>(
                #[trigger] self.shadow_images()[i],
                self.spec_len() as nat,
            ) == self@
    }

    /// Every store holds exactly `cap` slots: what reading the elements from
    /// any of them takes.
    pub open spec fn allocated(&self) -> bool {
        &&& self.spec_len() <= self.spec_cap()
        &&& self.spec_cap() * T::width() <= u64::MAX
        &&& (!self.is_broken() ==> self.image().len() == self.byte_cap() && forall|i: int|
            0 <= i < self.shadow_images().len() ==> (#[trigger] self.shadow_images()[i]).len()
                == self.byte_cap())
    }

    /// The number of elements read at a time when two stores are compared: as
    /// many as fit in `COPY_BLOCK` bytes, and at least one.
    pub fn elements_per_block() -> (elements: usize)
        ensures
            elements == if T::width() >= COPY_BLOCK {
                1
            } else {
                COPY_BLOCK as nat / T::width()
            },
            elements >= 1,
            elements * T::width() <= usize::MAX,
    {
        proof {
            T::lemma_codec();
        }
        let width: usize = T::size();
        if width >= COPY_BLOCK {
            assert(1 * T::width() == T::width()) by (nonlinear_arith);
            1
        } else {
            let elements: usize = COPY_BLOCK / width;
            assert(elements >= 1 && elements * T::width() <= COPY_BLOCK) by (nonlinear_arith)
                requires
                    elements == COPY_BLOCK as nat / T::width(),
                    1 <= T::width() < COPY_BLOCK,
            ;
            elements
        }
    }

    /// Reads every element from the primary and from every shadow, block by
    /// block, and says whether each shadow holds the elements of the primary.
    /// The first block that differs ends the reading.
    ///
    /// A store that faults is not replaced here: the fault is reported and
    /// the instance is left as it was.
    pub fn confirm_shadow_equivalence(&mut self) -> (confirmed: Result<bool, Error>)
        requires
            old(self).allocated(),
        ensures
            final(self).allocated(),
            old(self).wf() ==> final(self).wf(),
            final(self)@ == old(self)@,
            final(self).image() == old(self).image(),
            final(self).shadow_images() == old(self).shadow_images(),
            final(self).primary_label() == old(self).primary_label(),
            final(self).shadow_labels() == old(self).shadow_labels(),
            final(self).spec_len() == old(self).spec_len(),
            final(self).spec_cap() == old(self).spec_cap(),
            final(self).is_broken() == old(self).is_broken(),
            old(self).is_broken() ==> confirmed == Err::<bool, Error>(Error::IrrecoverableState),
            confirmed matches Ok(same) ==> !old(self).is_broken() && same == old(
                self).shadows_equivalent(),
            confirmed matches Err(e) ==> old(self).is_broken() || e is Storage,
            !old(self).is_broken() && S::span() > 0 ==> confirmed is Ok,
    {
        if self.broken {
            return Err(Error::IrrecoverableState);
        }
        proof {
            T::lemma_codec();
            lemma_bytes_monotonic(self.spec_len() as nat, self.spec_cap() as nat, T::width());
        }
        let element_size: usize = self.element_size();
        let per_block: usize = Self::elements_per_block();
        let ghost count = self.spec_len() as nat;
        let ghost images = self.shadow_images();
        let ghost labels = self.shadow_labels();
        let mut s: usize = 0;
        while s < self.shadows.len()
            invariant
                self.allocated(),
                !self.is_broken(),
                !old(self).is_broken(),
                element_size == T::width(),
                per_block >= 1,
                per_block * T::width() <= usize::MAX,
                count == self.spec_len(),
                count * T::width() <= self.byte_cap(),
                self.image() == old(self).image(),
                self.shadow_images() == images,
                images == old(self).shadow_images(),
                self.primary_label() == old(self).primary_label(),
                self.shadow_labels() == labels,
                labels == old(self).shadow_labels(),
                self.spec_len() == old(self).spec_len(),
                self.spec_cap() == old(self).spec_cap(),
                s <= images.len(),
                forall|i: int| 0 <= i < s ==> decoded::<T>(#[trigger] images[i], count) == self@,
            decreases images.len() - s,
        {
            let mut j: u64 = 0;
            while j < self.len
                invariant
                    self.allocated(),
                    !self.is_broken(),
                    !old(self).is_broken(),
                    element_size == T::width(),
                    per_block >= 1,
                    per_block * T::width() <= usize::MAX,
                    count == self.spec_len(),
                    count * T::width() <= self.byte_cap(),
                    self.image() == old(self).image(),
                    self.shadow_images() == images,
                    images == old(self).shadow_images(),
                    self.primary_label() == old(self).primary_label(),
                    self.shadow_labels() == labels,
                    labels == old(self).shadow_labels(),
                    self.spec_len() == old(self).spec_len(),
                    self.spec_cap() == old(self).spec_cap(),
                    s < images.len(),
                    j <= count,
                    forall|q: int|
                        0 <= q < j ==> #[trigger] decoded::<T>(images[s as int], count)[q]
                            == self@[q],
                decreases count - j,
            {
                let elements: usize = if self.len - j < per_block as u64 {
                    (self.len - j) as usize
                } else {
                    per_block
                };
                let ghost image = self.image();
                let ghost theirs_image = images[s as int];
                proof {
                    T::lemma_codec();
                    lemma_slot_bounds(j as nat, count, T::width());
                    lemma_bytes_monotonic((j + elements) as nat, count, T::width());
                    lemma_bytes_monotonic(elements as nat, per_block as nat, T::width());
                    assert((j + elements) * T::width() == j * T::width() + elements * T::width())
                        by (nonlinear_arith);
                    assert(theirs_image.len() == self.byte_cap());
                }
                let offset: u64 = match self.calc_index(j) {
                    Err(e) => {
                        return Err(e);
                    },
                    Ok(offset) => offset,
                };
                let bytes: usize = elements * element_size;
                let ours: Vec<u8> = match self.file.read_at(offset, bytes) {
                    Err(fault) => {
                        return Err(Error::Storage(fault));
                    },
                    Ok(read) => read,
                };
                let theirs: Vec<u8> = match self.shadows[s].read_at(offset, bytes) {
                    Err(fault) => {
                        assert(self.shadow_images() =~= images);
                        assert(self.shadow_labels() =~= labels);
                        return Err(Error::Storage(fault));
                    },
                    Ok(read) => read,
                };
                assert(self.shadow_images() =~= images);
                assert(self.shadow_labels() =~= labels);
                assert(ours@ =~= image.subrange(
                    (j * T::width()) as int,
                    ((j + elements) * T::width()) as int,
                ));
                assert(theirs@ =~= theirs_image.subrange(
                    (j * T::width()) as int,
                    ((j + elements) * T::width()) as int,
                ));
                let same: bool = same_elements::<T>(ours.as_slice(), theirs.as_slice(), elements);
                proof {
                    assert forall|k: int| 0 <= k < elements implies #[trigger] decoded::<T>(
                        ours@,
                        elements as nat,
                    )[k] == self@[j + k] && decoded::<T>(theirs@, elements as nat)[k] == decoded::<
                        T,
                    >(theirs_image, count)[j + k] by {
                        lemma_decoded_block::<T>(image, j as nat, elements as nat, k as nat);
                        lemma_decoded_block::<T>(
                            theirs_image,
                            j as nat,
                            elements as nat,
                            k as nat,
                        );
                    }
                }
                if !same {
                    assert(decoded::<T>(theirs_image, count) != self@) by {
                        if decoded::<T>(theirs_image, count) == self@ {
                            assert(decoded::<T>(ours@, elements as nat) =~= decoded::<T>(
                                theirs@,
                                elements as nat,
                            ));
                        }
                    }
                    return Ok(false);
                }
                assert forall|q: int| 0 <= q < j + elements implies #[trigger] decoded::<T>(
                    images[s as int],
                    count,
                )[q] == self@[q] by {
                    if q >= j {
                        assert(decoded::<T>(ours@, elements as nat)[q - j] == decoded::<T>(
                            theirs@,
                            elements as nat,
                        )[q - j]);
                    }
                }
                j = j + elements as u64;
            }
            assert(decoded::<T>(images[s as int], count) =~= self@);
            s = s + 1;
        }
        Ok(true)
    }

    /// A cursor at the first element.
    pub fn into_iter(&self) -> (cursor: VecFileIterator)
        ensures
            cursor.spec_len() == self.spec_len(),
            cursor.position() == 0,
    {
        VecFileIterator { len: self.len, counter: 0 }
    }

    /// The elements, in order, as a vector in memory.
    ///
    /// Fails with `LenExceedsUsize` when there are more elements than a
    /// vector can index.
    pub fn to_vec(&mut self) -> (elements: Result<Vec<T>, Error>)
        requires
            old(self).wf(),
        ensures
            final(self).wf(),
            final(self)@ == old(self)@,
            final(self).image() == old(self).image(),
            final(self).spec_len() == old(self).spec_len(),
            final(self).spec_cap() == old(self).spec_cap(),
            final(self).is_broken() == old(self).is_broken(),
            final(self).spec_shadow_count() <= old(self).spec_shadow_count(),
            old(self).spec_len() > usize::MAX ==> elements == Err::<Vec<T>, Error>(
                Error::LenExceedsUsize(old(self).spec_len()),
            ),
            old(self).spec_len() <= usize::MAX && old(self).spec_len() > 0 && old(self).is_broken()
                ==> elements == Err::<Vec<T>, Error>(Error::IrrecoverableState),
            elements matches Ok(v) ==> v@ == old(self)@,
            elements matches Err(e) ==> old(self).spec_len() > usize::MAX || old(self).is_broken()
                || old(self).reports(e),
            old(self).spec_len() <= usize::MAX && !old(self).is_broken() && old(self).byte_cap()
                <= S::span()
                    ==> elements is Ok && final(self).spec_shadow_count()
                        == old(self).spec_shadow_count(),
    {
        if self.len > usize::MAX as u64 {
            return Err(Error::LenExceedsUsize(self.len));
        }
        let shadows_before: usize = self.shadows.len();
        let mut elements: Vec<T> = Vec::new();
        let mut cursor: VecFileIterator = self.into_iter();
        loop
            invariant
                shadows_before == old(self).spec_shadow_count(),
                self.wf(),
                self@ == old(self)@,
                self.image() == old(self).image(),
                self.spec_len() == old(self).spec_len(),
                self.spec_cap() == old(self).spec_cap(),
                self.is_broken() == old(self).is_broken(),
                self.spec_shadow_count() <= old(self).spec_shadow_count(),
                old(self).byte_cap() <= S::span() && !old(self).is_broken()
                    ==> self.spec_shadow_count() == old(self).spec_shadow_count(),
                old(self).spec_len() <= usize::MAX,
                cursor.spec_len() == self.spec_len(),
                cursor.position() <= cursor.spec_len(),
                cursor.position() > 0 ==> !old(self).is_broken(),
                elements@ == self@.take(cursor.position() as int),
            decreases cursor.spec_len() - cursor.position(),
        {
            match cursor.next(self) {
                Err(e) => {
                    return Err(surfaced(e, shadows_before));
                },
                Ok(None) => {
                    assert(self@.take(cursor.position() as int) =~= self@);
                    return Ok(elements);
                },
                Ok(Some(value)) => {
                    elements.push(value);
                    assert(elements@ =~= self@.take(cursor.position() as int));
                },
            }
        }
    }

    /// Turns the instance into a vector in memory that holds its elements,
    /// in order.
    pub fn try_into(self) -> (elements: Result<Vec<T>, Error>)
        requires
            self.wf(),
        ensures
            self.spec_len() > usize::MAX ==> elements == Err::<Vec<T>, Error>(
                Error::LenExceedsUsize(self.spec_len()),
            ),
            elements matches Ok(v) ==> v@ == self@,
            elements matches Err(e) ==> self.spec_len() > usize::MAX || self.is_broken()
                || self.reports(e),
            self.spec_len() <= usize::MAX && !self.is_broken() && self.byte_cap() <= S::span()
                ==> elements is Ok,
    {
        let mut this = self;
        this.to_vec()
    }

    /// A new instance, without shadows, that holds the elements of `vec`, in
    /// order.
    pub fn try_from(vec: Vec<T>) -> (made: Result<Self, Error>)
        ensures
            made matches Ok(vf) ==> vf.wf() && !vf.is_broken() && vf@ == vec@
                && vf.spec_shadow_count() == 0 && vf.spec_cap() == grown(8, vec@.len()),
            made matches Err(e) ==> (e == Error::IndexExceedsMaxU64 <==> grown(8, vec@.len())
                * T::width() > u64::MAX) && (e != Error::IndexExceedsMaxU64 ==> e is Storage),
            grown(8, vec@.len()) * T::width() <= u64::MAX && grown(8, vec@.len()) * T::width()
                <= S::span() ==> made is Ok,
    {
        proof {
            T::lemma_codec();
            lemma_grown(8, vec@.len());
            lemma_bytes_monotonic(8, grown(8, vec@.len()), T::width());
        }
        if T::size() as u64 > u64::MAX / INITIAL_CAPACITY || !Self::growth_fits(
            INITIAL_CAPACITY,
            vec.len() as u64,
        ) {
            return Err(Error::IndexExceedsMaxU64);
        }
        let mut ret: Self = match Self::new() {
            Err(e) => {
                return Err(e);
            },
            Ok(ret) => ret,
        };
        match ret.reserve(vec.len() as u64) {
            Err(e) => {
                return Err(e);
            },
            Ok(()) => {},
        }
        proof {
            lemma_grown(ret.spec_cap() as nat, vec@.len());
        }
        match ret.try_extend_from_slice(vec.as_slice()) {
            Err(e) => {
                return Err(e);
            },
            Ok(()) => {},
        }
        assert(ret@ =~= vec@);
        Ok(ret)
    }
}

impl<T: Element, S: Storage> VecFile<T, S> {
    /// A new instance, without shadows, that holds the elements of `iter`,
    /// in order. While it is filled it is protected by one shadow.
    pub fn try_from_iter(iter: Vec<T>) -> (made: Result<Self, Error>)
        ensures
            made matches Ok(vf) ==> vf.wf() && !vf.is_broken() && vf@ == iter@
                && vf.spec_shadow_count() == 0 && vf.spec_cap() == grown(8, iter@.len()),
            made matches Err(e) ==> (e == Error::IndexExceedsMaxU64 <==> grown(8, iter@.len())
                * T::width() > u64::MAX) && (e != Error::IndexExceedsMaxU64 ==> is_fault(e)),
            grown(8, iter@.len()) * T::width() <= u64::MAX && grown(8, iter@.len()) * T::width()
                <= S::span() ==> made is Ok,
    {
        proof {
            T::lemma_codec();
            lemma_grown(8, iter@.len());
            lemma_bytes_monotonic(8, grown(8, iter@.len()), T::width());
        }
        if T::size() as u64 > u64::MAX / INITIAL_CAPACITY || !Self::growth_fits(
            INITIAL_CAPACITY,
            iter.len() as u64,
        ) {
            return Err(Error::IndexExceedsMaxU64);
        }
        let mut vf: Self = match Self::new() {
            Err(e) => {
                return Err(e);
            },
            Ok(vf) => vf,
        };
        // One shadow, to protect against faults while the elements go in.
        match vf.add_shadows(1) {
            Err(e) => {
                return Err(e);
            },
            Ok(()) => {},
        }
        let ghost total = grown(8, iter@.len());
        let mut taken: usize = 0;
        while taken < iter.len()
            invariant
                vf.wf(),
                !vf.is_broken(),
                taken <= iter@.len(),
                vf.spec_len() == taken,
                vf@ == iter@.take(taken as int),
                vf.spec_cap() == grown(8, taken as nat),
                total == grown(8, iter@.len()),
                total * T::width() <= u64::MAX,
                T::width() >= 1,
                vf.spec_shadow_count() <= 1,
                total * T::width() <= S::span() ==> vf.spec_shadow_count() == 1,
            decreases iter@.len() - taken,
        {
            proof {
                lemma_grown_next(8, taken as nat);
                lemma_grown(8, taken as nat);
                lemma_grown_monotonic(8, (taken + 1) as nat, iter@.len());
                lemma_grown(8, (taken + 1) as nat);
                lemma_grown(8, iter@.len());
                lemma_bytes_monotonic(grown(8, (taken + 1) as nat), total, T::width());
                assert(2 * (vf.spec_cap() * T::width()) == 2 * vf.spec_cap() * T::width())
                    by (nonlinear_arith);
                assert(2 * (vf.spec_cap() * T::width()) == (2 * vf.spec_cap()) * T::width())
                    by (nonlinear_arith);
            }
            match vf.try_push(&iter[taken]) {
                Err(e) => {
                    return Err(e);
                },
                Ok(()) => {},
            }
            taken = taken + 1;
            assert(vf@ =~= iter@.take(taken as int));
        }
        assert(iter@.take(taken as int) =~= iter@);
        vf.remove_shadows(1);
        Ok(vf)
    }

    /// A new instance that holds the elements of `iter`, which must be few
    /// enough for stores that can take them.
    pub fn from_iter(iter: Vec<T>) -> (vf: Self)
        requires
            grown(8, iter@.len()) * T::width() <= u64::MAX,
            grown(8, iter@.len()) * T::width() <= S::span(),
        ensures
            vf.wf(),
            !vf.is_broken(),
            vf@ == iter@,
            vf.spec_shadow_count() == 0,
            vf.spec_len() == iter@.len(),
            vf.spec_cap() == grown(8, iter@.len()),
    {
        Self::try_from_iter(iter).unwrap()
    }

    /// A deep copy: a new instance with as many shadows, filled element by
    /// element through the same path as any other append.
    pub fn try_clone(&mut self) -> (cloned: Result<Self, Error>)
        requires
            old(self).wf(),
        ensures
            final(self).wf(),
            final(self)@ == old(self)@,
            final(self).image() == old(self).image(),
            final(self).spec_len() == old(self).spec_len(),
            final(self).spec_cap() == old(self).spec_cap(),
            final(self).is_broken() == old(self).is_broken(),
            final(self).spec_shadow_count() <= old(self).spec_shadow_count(),
            old(self).is_broken() ==> (cloned matches Err(e) && e == Error::IrrecoverableState),
            cloned matches Ok(copy) ==> !old(self).is_broken() && copy.wf() && !copy.is_broken()
                && copy@ == old(self)@ && copy.spec_cap() == grown(8, old(self).spec_len() as nat)
                && copy.spec_shadow_count() <= old(self).spec_shadow_count(),
            cloned matches Err(e) ==> old(self).is_broken() || is_fault(e),
            !old(self).is_broken() && old(self).byte_cap() <= S::span() ==> (cloned matches Ok(
                copy,
            ) && copy.spec_shadow_count() == old(self).spec_shadow_count())
                && final(self).spec_shadow_count() == old(self).spec_shadow_count(),
    {
        if self.broken {
            return Err(Error::IrrecoverableState);
        }
        let ghost count = self.spec_len() as nat;
        proof {
            T::lemma_codec();
            lemma_capacity_doubles(self.spec_cap() as nat);
            lemma_grown(8, count);
            lemma_grown_through(self.spec_cap() as nat, count);
            lemma_bytes_monotonic(8, self.spec_cap() as nat, T::width());
            lemma_bytes_monotonic(grown(8, count), self.spec_cap() as nat, T::width());
        }
        let mut clone: Self = match Self::new() {
            Err(e) => {
                return Err(e);
            },
            Ok(clone) => clone,
        };
        match clone.add_shadows(self.shadows.len()) {
            Err(e) => {
                return Err(e);
            },
            Ok(()) => {},
        }
        match clone.reserve(self.len) {
            Err(e) => {
                return Err(e);
            },
            Ok(()) => {},
        }
        let mut cursor: VecFileIterator = self.into_iter();
        loop
            invariant
                self.wf(),
                !self.is_broken(),
                !old(self).is_broken(),
                self@ == old(self)@,
                self.image() == old(self).image(),
                self.spec_len() == old(self).spec_len(),
                self.spec_cap() == old(self).spec_cap(),
                self.spec_shadow_count() <= old(self).spec_shadow_count(),
                old(self).byte_cap() <= S::span()
                    ==> self.spec_shadow_count() == old(self).spec_shadow_count()
                        && clone.spec_shadow_count() == old(self).spec_shadow_count(),
                count == self.spec_len(),
                cursor.spec_len() == self.spec_len(),
                cursor.position() <= cursor.spec_len(),
                clone.wf(),
                !clone.is_broken(),
                clone.spec_len() == cursor.position(),
                clone.spec_cap() == grown(8, count),
                clone.spec_cap() >= count,
                clone.byte_cap() <= old(self).byte_cap(),
                clone.spec_shadow_count() <= old(self).spec_shadow_count(),
                clone@ == self@.take(cursor.position() as int),
            decreases cursor.spec_len() - cursor.position(),
        {
            match cursor.next(self) {
                Err(e) => {
                    return Err(e);
                },
                Ok(None) => {
                    assert(self@.take(cursor.position() as int) =~= self@);
                    return Ok(clone);
                },
                Ok(Some(element)) => {
                    match clone.append(&element) {
                        Err(e) => {
                            return Err(e);
                        },
                        Ok(()) => {},
                    }
                    assert(clone@ =~= self@.take(cursor.position() as int));
                },
            }
        }
    }

    /// Whether the two instances hold the same elements: as many, and the
    /// same at every index. Instances of different length are told apart
    /// without a read.
    pub fn eq(&mut self, other: &mut Self) -> (equal: Result<bool, Error>)
        requires
            old(self).wf(),
            old(other).wf(),
        ensures
            final(self).wf(),
            final(other).wf(),
            final(self)@ == old(self)@,
            final(other)@ == old(other)@,
            final(self).spec_cap() == old(self).spec_cap(),
            final(other).spec_cap() == old(other).spec_cap(),
            final(self).is_broken() == old(self).is_broken(),
            final(other).is_broken() == old(other).is_broken(),
            final(self).spec_shadow_count() <= old(self).spec_shadow_count(),
            final(other).spec_shadow_count() <= old(other).spec_shadow_count(),
            equal matches Ok(same) ==> same == (old(self)@ == old(other)@),
            old(self).spec_len() != old(other).spec_len() ==> equal == Ok::<bool, Error>(false),
            equal matches Err(e) ==> old(self).is_broken() || old(other).is_broken() || is_fault(
                e,
            ),
            !old(self).is_broken() && !old(other).is_broken() && old(self).byte_cap() <= S::span()
                && old(other).byte_cap() <= S::span() ==> equal is Ok,
    {
        if self.len != other.len {
            assert(self@.len() != other@.len());
            return Ok(false);
        }
        let mut i: u64 = 0;
        while i < self.len
            invariant
                self.wf(),
                other.wf(),
                self@ == old(self)@,
                other@ == old(other)@,
                self.spec_len() == old(self).spec_len(),
                other.spec_len() == old(other).spec_len(),
                self.spec_len() == other.spec_len(),
                self.spec_cap() == old(self).spec_cap(),
                other.spec_cap() == old(other).spec_cap(),
                self.is_broken() == old(self).is_broken(),
                other.is_broken() == old(other).is_broken(),
                self.spec_shadow_count() <= old(self).spec_shadow_count(),
                other.spec_shadow_count() <= old(other).spec_shadow_count(),
                i <= self.spec_len(),
                forall|k: int| 0 <= k < i ==> self@[k] == other@[k],
            decreases self.spec_len() - i,
        {
            let e1: T = match self.try_get(i) {
                Err(e) => {
                    return Err(e);
                },
                Ok(value) => value,
            };
            let e2: T = match other.try_get(i) {
                Err(e) => {
                    return Err(e);
                },
                Ok(value) => value,
            };
            if !e1.same(&e2) {
                assert(self@[i as int] != other@[i as int]);
                return Ok(false);
            }
            i = i + 1;
        }
        assert(self@ =~= other@);
        Ok(true)
    }

    /// Whether the instance holds the elements of `other`: as many, and the
    /// same at every index.
    pub fn eq_slice(&mut self, other: &[T]) -> (equal: Result<bool, Error>)
        requires
            old(self).wf(),
        ensures
            final(self).wf(),
            final(self)@ == old(self)@,
            final(self).spec_cap() == old(self).spec_cap(),
            final(self).is_broken() == old(self).is_broken(),
            final(self).spec_shadow_count() <= old(self).spec_shadow_count(),
            equal matches Ok(same) ==> same == (old(self)@ == other@),
            old(self).spec_len() != other@.len() ==> equal == Ok::<bool, Error>(false),
            equal matches Err(e) ==> old(self).is_broken() || old(self).reports(e),
            !old(self).is_broken() && old(self).byte_cap() <= S::span() ==> equal is Ok,
    {
        if other.len() as u64 != self.len {
            assert(self@.len() != other@.len());
            return Ok(false);
        }
        let shadows_before: usize = self.shadows.len();
        let mut i: usize = 0;
        while i < other.len()
            invariant
                shadows_before == old(self).spec_shadow_count(),
                self.wf(),
                self@ == old(self)@,
                self.spec_len() == old(self).spec_len(),
                self.spec_len() == other@.len(),
                self.spec_cap() == old(self).spec_cap(),
                self.is_broken() == old(self).is_broken(),
                self.spec_shadow_count() <= old(self).spec_shadow_count(),
                i <= other@.len(),
                forall|k: int| 0 <= k < i ==> self@[k] == other@[k],
            decreases other@.len() - i,
        {
            let e1: T = match self.try_get(i as u64) {
                Err(e) => {
                    return Err(surfaced(e, shadows_before));
                },
                Ok(value) => value,
            };
            if !e1.same(&other[i]) {
                assert(self@[i as int] != other@[i as int]);
                return Ok(false);
            }
            i = i + 1;
        }
        assert(self@ =~= other@);
        Ok(true)
    }

    /// Copies the bytes of the primary into `named_file`, whose former
    /// content is discarded, and makes `named_file` the primary from then on.
    ///
    /// When it fails, `named_file` is dropped and the primary is still one of
    /// the stores the instance had.
    pub fn to_named_file(&mut self, named_file: S) -> (exported: Result<(), Error>)
        requires
            old(self).wf(),
        ensures
            final(self).wf(),
            final(self)@ == old(self)@,
            final(self).image() == old(self).image(),
            final(self).spec_len() == old(self).spec_len(),
            final(self).spec_cap() == old(self).spec_cap(),
            final(self).is_broken() == old(self).is_broken(),
            final(self).spec_shadow_count() <= old(self).spec_shadow_count(),
            old(self).is_broken() ==> exported == Err::<(), Error>(Error::IrrecoverableState)
                && *final(self) == *old(self),
            exported is Ok ==> !old(self).is_broken() && final(self).primary_label()
                == named_file.label(),
            exported is Err ==> old(self).owns(final(self).primary_label()),
            exported matches Err(e) ==> old(self).is_broken() || is_fault(e),
            !old(self).is_broken() && old(self).byte_cap() <= S::span() ==> exported is Ok
                && final(self).spec_shadow_count() == old(self).spec_shadow_count(),
    {
        if self.broken {
            return Err(Error::IrrecoverableState);
        }
        let mut named_file = named_file;
        let shadows_before: usize = self.shadows.len();
        match self.fill(&mut named_file) {
            Err(CopyFailure::Source(e)) => Err(e),
            Err(CopyFailure::Target(fault)) => Err(Error::Storage(fault)),
            Ok(()) => {
                self.restore_shadows(shadows_before);
                let ghost images = self.shadow_images();
                self.file = named_file;
                assert(self.shadow_images() == images);
                Ok(())
            },
        }
    }
}

} // verus!
