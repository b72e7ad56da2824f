//! How elements are laid out in a store, and how capacities grow.
//!
//! Slot `i` of a store is the byte range `[i * width, i * width + width)`.
//! The elements of an instance are what its first `len` slots decode to.
//! Capacities start at 8 and double.
use vstd::prelude::*;
use crate::codec::Element;
use crate::store::{fitted, overlay};

verus! {

/// The capacities an instance can have: 8, 16, 32, ...
pub open spec fn is_capacity(cap: nat) -> bool
    decreases cap,
{
    cap == 8 || (cap > 8 && cap % 2 == 0 && is_capacity(cap / 2))
}

/// Doubling a capacity gives a capacity.
pub proof fn lemma_capacity_doubles(cap: nat)
    requires
        is_capacity(cap),
    ensures
        is_capacity(2 * cap),
        cap >= 8,
{
}

/// The capacity reached from `cap` by doubling until `need` slots fit.
pub open spec fn grown(cap: nat, need: nat) -> nat
    decreases
            (if need > cap {
                need - cap
            } else {
                0
            }),
{
    if cap == 0 || cap >= need {
        cap
    } else {
        grown(2 * cap, need)
    }
}

/// Growing by doubling never shrinks, stops as soon as `need` slots fit, and
/// takes a capacity to a capacity.
pub proof fn lemma_grown(cap: nat, need: nat)
    requires
        cap > 0,
    ensures
        grown(cap, need) >= cap,
        grown(cap, need) >= need,
        cap >= need ==> grown(cap, need) == cap,
        cap < need ==> grown(cap, need) == grown(2 * cap, need),
        is_capacity(cap) ==> is_capacity(grown(cap, need)),
    decreases
            (if need > cap {
                need - cap
            } else {
                0
            }),
{
    if cap < need {
        lemma_grown(2 * cap, need);
    }
}

/// The more slots are needed, the further doubling goes.
pub proof fn lemma_grown_monotonic(cap: nat, fewer: nat, more: nat)
    requires
        cap > 0,
        fewer <= more,
    ensures
        grown(cap, fewer) <= grown(cap, more),
    decreases
            (if more > cap {
                more - cap
            } else {
                0
            }),
{
    lemma_grown(cap, fewer);
    lemma_grown(cap, more);
    if cap < fewer {
        lemma_grown_monotonic(2 * cap, fewer, more);
    }
}

/// Doubling from 8 passes through every capacity below `need`, and so never
/// goes beyond a capacity that `need` slots fit in.
pub proof fn lemma_grown_through(cap: nat, need: nat)
    requires
        is_capacity(cap),
    ensures
        cap < need ==> grown(8, need) == grown(cap, need),
        cap >= need ==> grown(8, need) <= cap,
    decreases cap,
{
    if cap > 8 {
        let half = cap / 2;
        lemma_grown_through(half, need);
        lemma_grown(half, need);
        lemma_grown(cap, need);
    } else {
        lemma_grown(8, need);
    }
}

/// One more slot is had without growing while a slot is free, and by one
/// doubling when none is.
pub proof fn lemma_grown_next(cap: nat, need: nat)
    requires
        cap > 0,
    ensures
        grown(cap, need + 1) == if grown(cap, need) > need {
            grown(cap, need)
        } else {
            2 * grown(cap, need)
        },
    decreases
            (if need > cap {
                need - cap
            } else {
                0
            }),
{
    lemma_grown(cap, need);
    lemma_grown(cap, need + 1);
    if cap < need {
        lemma_grown_next(2 * cap, need);
    } else if cap == need {
        lemma_grown(2 * cap, need + 1);
    }
}

/// The bytes of slot `index` in `image`, for elements `width` bytes wide.
pub open spec fn slot(image: Seq<u8>, index: nat, width: nat) -> Seq<u8> {
    image.subrange((index * width) as int, (index * width + width) as int)
}

/// The elements that the first `len` slots of `image` hold.
pub open spec fn decoded<T: Element>(image: Seq<u8>, len: nat) -> Seq<T> {
    Seq::new(len, |i: int| T::decoding(slot(image, i as nat, T::width())))
}

/// Each of the first `n` slots ends within the first `n * width` bytes.
pub proof fn lemma_slot_bounds(i: nat, n: nat, width: nat)
    requires
        i < n,
    ensures
        i * width + width <= n * width,
        0 <= i * width,
{
    assert(i * width + width == (i + 1) * width) by (nonlinear_arith);
    assert((i + 1) * width <= n * width) by (nonlinear_arith)
        requires
            i + 1 <= n,
    ;
}

/// `len` slots take no more bytes than `cap` slots when `len <= cap`.
pub proof fn lemma_bytes_monotonic(len: nat, cap: nat, width: nat)
    requires
        len <= cap,
    ensures
        len * width <= cap * width,
{
    assert(len * width <= cap * width) by (nonlinear_arith)
        requires
            len <= cap,
    ;
}

/// Writing one slot changes what that slot decodes to, and nothing else.
pub proof fn lemma_decoded_after_write<T: Element>(
    image: Seq<u8>,
    len: nat,
    index: nat,
    data: Seq<u8>,
)
    requires
        index < len,
        len * T::width() <= image.len(),
        data.len() == T::width(),
    ensures
        decoded::<T>(overlay(image, index * T::width(), data), len) == decoded::<T>(
            image,
            len,
        ).update(index as int, T::decoding(data)),
{
    let w = T::width();
    let after = overlay(image, index * w, data);
    lemma_slot_bounds(index, len, w);
    assert(after.len() == image.len());
    assert forall|j: int| 0 <= j < len implies #[trigger] decoded::<T>(after, len)[j]
        == decoded::<T>(image, len).update(index as int, T::decoding(data))[j] by {
        lemma_slot_bounds(j as nat, len, w);
        if j == index {
            assert(slot(after, j as nat, w) =~= data);
        } else {
            if j < index {
                lemma_slot_bounds(j as nat, index, w);
            } else {
                lemma_slot_bounds(index, j as nat, w);
            }
            assert(slot(after, j as nat, w) =~= slot(image, j as nat, w));
        }
    }
    assert(decoded::<T>(after, len) =~= decoded::<T>(image, len).update(
        index as int,
        T::decoding(data),
    ));
}

/// Writing the slot just past the first `len` appends what was written to
/// what those slots decode to.
pub proof fn lemma_decoded_after_append<T: Element>(image: Seq<u8>, len: nat, data: Seq<u8>)
    requires
        (len + 1) * T::width() <= image.len(),
        data.len() == T::width(),
    ensures
        decoded::<T>(overlay(image, len * T::width(), data), len + 1) == decoded::<T>(
            image,
            len,
        ).push(T::decoding(data)),
{
    lemma_decoded_after_write::<T>(image, len + 1, len, data);
    assert(decoded::<T>(image, len + 1).update(len as int, T::decoding(data)) =~= decoded::<T>(
        image,
        len,
    ).push(T::decoding(data)));
}

/// Bytes beyond the first `len` slots have no part in what those slots decode
/// to.
pub proof fn lemma_decoded_depends_on_prefix<T: Element>(a: Seq<u8>, b: Seq<u8>, len: nat)
    requires
        len * T::width() <= a.len(),
        len * T::width() <= b.len(),
        a.subrange(0, (len * T::width()) as int) == b.subrange(0, (len * T::width()) as int),
    ensures
        decoded::<T>(a, len) == decoded::<T>(b, len),
{
    let w = T::width();
    let n = (len * w) as int;
    assert forall|j: int| 0 <= j < len implies #[trigger] decoded::<T>(a, len)[j] == decoded::<T>(
        b,
        len,
    )[j] by {
        lemma_slot_bounds(j as nat, len, w);
        let lo = (j * w) as int;
        let sa = slot(a, j as nat, w);
        let sb = slot(b, j as nat, w);
        assert forall|k: int| 0 <= k < w implies #[trigger] sa[k] == sb[k] by {
            assert(a[lo + k] == a.subrange(0, n)[lo + k]);
            assert(b[lo + k] == b.subrange(0, n)[lo + k]);
        }
        assert(sa =~= sb);
    }
    assert(decoded::<T>(a, len) =~= decoded::<T>(b, len));
}

/// Cutting or padding an image beyond its first `len` slots leaves what they
/// decode to alone.
pub proof fn lemma_decoded_after_resize<T: Element>(image: Seq<u8>, len: nat, size: nat)
    requires
        len * T::width() <= image.len(),
        len * T::width() <= size,
    ensures
        decoded::<T>(fitted(image, size), len) == decoded::<T>(image, len),
{
    let n = (len * T::width()) as int;
    assert(fitted(image, size).subrange(0, n) =~= image.subrange(0, n));
    lemma_decoded_depends_on_prefix::<T>(fitted(image, size), image, len);
}

/// The elements that a run of `count` slots decodes to, taken by itself, are
/// the elements that the same slots decode to within the whole image.
pub proof fn lemma_decoded_block<T: Element>(image: Seq<u8>, first: nat, count: nat, k: nat)
    requires
        k < count,
        (first + count) * T::width() <= image.len(),
    ensures
        first * T::width() <= (first + count) * T::width(),
        decoded::<T>(
            image.subrange((first * T::width()) as int, ((first + count) * T::width()) as int),
            count,
        )[k as int] == T::decoding(slot(image, first + k, T::width())),
{
    let w = T::width();
    let block = image.subrange((first * w) as int, ((first + count) * w) as int);
    assert((first + count) * w == first * w + count * w) by (nonlinear_arith);
    assert((first + k) * w == first * w + k * w) by (nonlinear_arith);
    lemma_slot_bounds(k, count, w);
    assert(slot(block, k, w) =~= slot(image, first + k, w));
}

/// The elements of `s` cut down to `len`, or filled up to `len` with `fill`.
pub open spec fn resized<T>(s: Seq<T>, len: nat, fill: T) -> Seq<T> {
    Seq::new(
        len,
        |i: int|
            if i < s.len() {
                s[i]
            } else {
                fill
            },
    )
}

} // verus!
