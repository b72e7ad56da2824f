//! Facts that relate several operations of the engine to one another.
//!
//! Each operation states, in its own contract, what it does to the sequence
//! of elements: `try_set` updates it, `try_push` pushes onto it, `try_pop`
//! returns its last element and drops it, `try_insert` and `try_remove`
//! insert into it and remove from it, the conversions carry it over
//! unchanged. The facts below are stated over those same sequences, so each
//! one speaks of any run of the operations that succeeds.
use vstd::prelude::*;
use crate::codec::Element;
use crate::error::Error;
use crate::store::Storage;
use crate::layout::{decoded, is_capacity};
use crate::vec_file::VecFile;

verus! {

/// The elements left after `n` pops.
pub open spec fn after_pops<T>(s: Seq<T>, n: nat) -> Seq<T>
    decreases n,
{
    if n == 0 {
        s
    } else {
        after_pops(s.drop_last(), (n - 1) as nat)
    }
}

/// The elements there are after each of `values` has been pushed, in order.
pub open spec fn after_pushes<T>(s: Seq<T>, values: Seq<T>) -> Seq<T>
    decreases values.len(),
{
    if values.len() == 0 {
        s
    } else {
        after_pushes(s.push(values[0]), values.drop_first())
    }
}

/// Pushing one value after another appends them all, in order.
pub proof fn lemma_pushes_append<T>(s: Seq<T>, values: Seq<T>)
    ensures
        after_pushes(s, values) == s + values,
    decreases values.len(),
{
    if values.len() == 0 {
        assert(s + values =~= s);
    } else {
        lemma_pushes_append(s.push(values[0]), values.drop_first());
        assert(s.push(values[0]) + values.drop_first() =~= s + values);
    }
}

/// Popping `n` times takes the last `n` elements away.
pub proof fn lemma_pops_take<T>(s: Seq<T>, n: nat)
    requires
        n <= s.len(),
    ensures
        after_pops(s, n) == s.take(s.len() - n),
    decreases n,
{
    if n == 0 {
        assert(s.take(s.len() as int) =~= s);
    } else {
        lemma_pops_take(s.drop_last(), (n - 1) as nat);
        assert(s.drop_last().take(s.len() - n) =~= s.take(s.len() - n));
    }
}

/// Round trip: an element that was set at an index is the element that is
/// got from that index, and every other element is as before.
pub proof fn law_set_then_get<T>(elements: Seq<T>, index: int, value: T)
    requires
        0 <= index < elements.len(),
    ensures
        elements.update(index, value)[index] == value,
        elements.update(index, value).len() == elements.len(),
        forall|other: int|
            0 <= other < elements.len() && other != index ==> elements.update(index, value)[other]
                == elements[other],
{
}

/// Last in, first out: after `values` have been pushed one by one, the pop
/// that follows `k` earlier pops returns the value pushed `k` before the
/// last, and once all of them are popped the elements are as they were.
pub proof fn law_lifo<T>(elements: Seq<T>, values: Seq<T>, k: nat)
    requires
        k < values.len(),
    ensures
        after_pops(after_pushes(elements, values), k).last() == values[values.len() - 1 - k],
        after_pops(after_pushes(elements, values), k).len() == elements.len() + values.len() - k,
        after_pops(after_pushes(elements, values), values.len()) == elements,
{
    let pushed = after_pushes(elements, values);
    lemma_pushes_append(elements, values);
    lemma_pops_take(pushed, k);
    lemma_pops_take(pushed, values.len());
    assert(pushed.take(elements.len() as int) =~= elements);
}

/// Each push makes the sequence one longer and each pop one shorter.
pub proof fn law_push_pop_lengths<T>(elements: Seq<T>, value: T)
    ensures
        elements.push(value).len() == elements.len() + 1,
        elements.push(value).last() == value,
        elements.push(value).drop_last() == elements,
        elements.len() > 0 ==> elements.drop_last().len() == elements.len() - 1,
{
    assert(elements.push(value).drop_last() =~= elements);
}

/// Insert and remove are inverse: what is removed from an index is what was
/// inserted there, and the elements are then as they were before the insert.
pub proof fn law_insert_then_remove<T>(elements: Seq<T>, index: int, value: T)
    requires
        0 <= index <= elements.len(),
    ensures
        elements.insert(index, value)[index] == value,
        elements.insert(index, value).remove(index) == elements,
        elements.insert(index, value).len() == elements.len() + 1,
{
    assert(elements.insert(index, value).remove(index) =~= elements);
}

/// Capacity: whatever was done to an instance, its length is within its
/// capacity and its capacity is 8 doubled some number of times.
pub proof fn law_capacity<T: Element, S: Storage>(vf: VecFile<T, S>)
    requires
        vf.wf(),
    ensures
        vf.spec_len() <= vf.spec_cap(),
        is_capacity(vf.spec_cap() as nat),
        vf.spec_cap() >= 8,
        vf.spec_cap() % 8 == 0,
        vf@.len() == vf.spec_len(),
{
    lemma_capacity_multiple(vf.spec_cap() as nat);
}

/// A capacity is a multiple of 8.
pub proof fn lemma_capacity_multiple(cap: nat)
    requires
        is_capacity(cap),
    ensures
        cap >= 8,
        cap % 8 == 0,
    decreases cap,
{
    if cap > 8 {
        lemma_capacity_multiple(cap / 2);
    }
}

/// Shadow equivalence: in an instance that is not broken, every shadow holds
/// the elements of the primary, and any two shadows hold the same elements.
pub proof fn law_shadow_equivalence<T: Element, S: Storage>(vf: VecFile<T, S>)
    requires
        vf.wf(),
        !vf.is_broken(),
    ensures
        vf.shadows_equivalent(),
        forall|i: int, j: int|
            0 <= i < vf.spec_shadow_count() && 0 <= j < vf.spec_shadow_count() ==> decoded::<T>(
                #[trigger] vf.shadow_images()[i],
                vf.spec_len() as nat,
            ) == decoded::<T>(#[trigger] vf.shadow_images()[j], vf.spec_len() as nat),
{
}

/// Conversion fidelity: whenever `try_from` stores a vector and `try_into`
/// then delivers the stored instance as a vector again, the vector delivered
/// holds the elements of the vector stored, in the same order.
pub proof fn law_conversion<T: Element, S: Storage>(
    given: Vec<T>,
    stored: VecFile<T, S>,
    back: Vec<T>,
)
    requires
        call_ensures(VecFile::<T, S>::try_from, (given,), Ok::<VecFile<T, S>, Error>(stored)),
        call_ensures(VecFile::<T, S>::try_into, (stored,), Ok::<Vec<T>, Error>(back)),
    ensures
        back@ == given@,
        back@.len() == given@.len(),
{
}

} // verus!
