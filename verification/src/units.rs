//! A map whose items are worked on in any order: every item travels with its
//! index, and every result is put back in its place.

use vstd::prelude::*;

verus! {

/// An item to work on, with its place in the input.
pub struct InputUnit<T> {
    pub idx: usize,
    pub item: T,
}

/// A result, with the place of its item in the input.
pub struct ResultUnit<U> {
    pub idx: usize,
    pub res: U,
}

/// Gives every item its place.
pub fn tag_inputs<T>(input_vec: Vec<T>) -> (r: Vec<InputUnit<T>>)
    ensures
        r@.len() == input_vec@.len(),
        forall|i: int|
            0 <= i < r@.len() ==> #[trigger] r@[i] == (InputUnit {
                idx: i as usize,
                item: input_vec@[i],
            }),
{
    let len: usize = input_vec.len();
    let mut units: Vec<InputUnit<T>> = Vec::with_capacity(len);
    for item in it: input_vec
        invariant
            it.seq() == input_vec@,
            input_vec@.len() == len,
            units@.len() == it.index(),
            forall|i: int|
                0 <= i < units@.len() ==> #[trigger] units@[i] == (InputUnit {
                    idx: i as usize,
                    item: input_vec@[i],
                }),
    {
        let idx: usize = units.len();
        units.push(InputUnit { idx, item });
    }
    units
}

/// Works on one item.
pub fn run_unit<T, U, F: FnOnce(T) -> U>(unit: InputUnit<T>, f: F) -> (r: ResultUnit<U>)
    requires
        call_requires(f, (unit.item,)),
    ensures
        r.idx == unit.idx,
        call_ensures(f, (unit.item,), r.res),
{
    ResultUnit { idx: unit.idx, res: f(unit.item) }
}

/// The results of a map, as far as they have come in.
pub struct Collector<U> {
    slots: Vec<Option<U>>,
}

impl<U> View for Collector<U> {
    type V = Seq<Option<U>>;

    closed spec fn view(&self) -> Seq<Option<U>> {
        self.slots@
    }
}

/// The places of a map before any result has come in.
pub open spec fn vacant<U>(len: nat) -> Seq<Option<U>> {
    Seq::new(len, |i: int| None)
}

/// The places after a result has come in.
pub open spec fn stored<U>(slots: Seq<Option<U>>, unit: ResultUnit<U>) -> Seq<Option<U>> {
    slots.update(unit.idx as int, Some(unit.res))
}

/// The places after results have come in, in this order.
pub open spec fn collected<U>(len: nat, results: Seq<ResultUnit<U>>) -> Seq<Option<U>>
    decreases results.len(),
{
    if results.len() == 0 {
        vacant(len)
    } else {
        stored(collected(len, results.drop_last()), results.last())
    }
}

impl<U> Collector<U> {
    /// Places for as many results as there are items.
    pub fn new(len: usize) -> (r: Collector<U>)
        ensures
            r@ == vacant::<U>(len as nat),
    {
        let mut slots: Vec<Option<U>> = Vec::with_capacity(len);
        for i in 0..len
            invariant
                slots@ == vacant::<U>(i as nat),
        {
            slots.push(None);
            assert(slots@ =~= vacant::<U>((i + 1) as nat));
        }
        Collector { slots }
    }

    /// Puts a result in its place.
    pub fn store(&mut self, unit: ResultUnit<U>)
        requires
            unit.idx < old(self)@.len(),
        ensures
            final(self)@ == stored(old(self)@, unit),
    {
        self.slots.set(unit.idx, Some(unit.res));
    }

    /// The results in the order of their items, if all of them have come in.
    pub fn finish(self) -> (r: Option<Vec<U>>)
        ensures
            r is Some <==> forall|i: int| 0 <= i < self@.len() ==> #[trigger] self@[i] is Some,
            r matches Some(output) ==> {
                &&& output@.len() == self@.len()
                &&& forall|i: int|
                    0 <= i < output@.len() ==> self@[i] == Some(#[trigger] output@[i])
            },
    {
        let ghost slots = self.slots@;
        let mut output: Vec<U> = Vec::with_capacity(self.slots.len());
        for slot in it: self.slots
            invariant
                it.seq() == slots,
                self@ == slots,
                output@.len() == it.index(),
                forall|i: int| 0 <= i < output@.len() ==> slots[i] == Some(#[trigger] output@[i]),
        {
            match slot {
                Some(res) => output.push(res),
                None => {
                    assert(self@[it.index()] is None);
                    return None;
                },
            }
        }
        assert forall|i: int| 0 <= i < self@.len() implies #[trigger] self@[i] is Some by {
            assert(slots[i] == Some(output@[i]));
        }
        Some(output)
    }
}

/// Whether results are in place and no two of them are for the same item.
pub open spec fn one_each<U>(len: nat, results: Seq<ResultUnit<U>>) -> bool {
    &&& forall|j: int| 0 <= j < results.len() ==> (#[trigger] results[j]).idx < len
    &&& forall|j: int, k: int|
        0 <= j < k < results.len() ==> (#[trigger] results[j]).idx != (#[trigger] results[k]).idx
}

/// Every result ends in its own place, whatever the order in which the
/// results come in, and the places of items without a result stay vacant.
pub proof fn lemma_results_end_in_place<U>(len: nat, results: Seq<ResultUnit<U>>)
    requires
        one_each(len, results),
    ensures
        collected(len, results).len() == len,
        forall|j: int|
            0 <= j < results.len() ==> collected(len, results)[(#[trigger] results[j]).idx as int]
                == Some(results[j].res),
        forall|i: int|
            0 <= i < len && (forall|j: int| 0 <= j < results.len() ==> (#[trigger] results[j]).idx
                != i) ==> #[trigger] collected(len, results)[i] is None,
    decreases results.len(),
{
    if results.len() > 0 {
        let earlier = results.drop_last();
        let last = results.last();
        let before = collected(len, earlier);
        assert forall|j: int| 0 <= j < earlier.len() implies (#[trigger] earlier[j]).idx < len by {
            assert(earlier[j] == results[j]);
        }
        assert forall|j: int, k: int| 0 <= j < k < earlier.len() implies (
        #[trigger] earlier[j]).idx != (#[trigger] earlier[k]).idx by {
            assert(earlier[j] == results[j] && earlier[k] == results[k]);
        }
        lemma_results_end_in_place(len, earlier);
        assert(results[results.len() - 1] == last);
        assert forall|j: int| 0 <= j < results.len() implies collected(
            len,
            results,
        )[(#[trigger] results[j]).idx as int] == Some(results[j].res) by {
            if j < earlier.len() {
                assert(earlier[j] == results[j]);
                assert(results[j].idx != last.idx);
            }
        }
        assert forall|i: int|
            0 <= i < len && (forall|j: int| 0 <= j < results.len() ==> (#[trigger] results[j]).idx
                != i) implies #[trigger] collected(len, results)[i] is None by {
            assert(last.idx != i);
            assert forall|j: int| 0 <= j < earlier.len() implies (#[trigger] earlier[j]).idx
                != i by {
                assert(earlier[j] == results[j]);
            }
            assert(before[i] is None);
        }
    }
}

/// As many results as there are items, one each, leave no item out.
proof fn lemma_no_item_left_out<U>(len: nat, results: Seq<ResultUnit<U>>, i: int)
    requires
        one_each(len, results),
        results.len() == len,
        0 <= i < len,
    ensures
        exists|j: int| 0 <= j < results.len() && (#[trigger] results[j]).idx == i,
{
    let places = results.map_values(|unit: ResultUnit<U>| unit.idx as int);
    assert(places.no_duplicates()) by {
        assert forall|j: int, k: int|
            0 <= j < places.len() && 0 <= k < places.len() && j != k implies places[j]
            != places[k] by {
            if j < k {
                assert(results[j].idx != results[k].idx);
            } else {
                assert(results[k].idx != results[j].idx);
            }
        }
    }
    places.unique_seq_to_set();
    let all = vstd::set_lib::set_int_range(0, len as int);
    vstd::set_lib::lemma_int_range(0, len as int);
    assert(places.to_set().subset_of(all)) by {
        assert forall|p: int| places.to_set().contains(p) implies all.contains(p) by {
            let j = choose|j: int| 0 <= j < places.len() && places[j] == p;
            assert(results[j].idx < len);
        }
    }
    vstd::set_lib::lemma_subset_equality(places.to_set(), all);
    assert(all.contains(i));
    assert(places.to_set().contains(i));
    let j = choose|j: int| 0 <= j < places.len() && places[j] == i;
    assert(results[j].idx == i);
}

/// The law of the parallel map: where every item was worked on once, what
/// comes out at each place is the function's result on the item at that
/// place, whatever the order in which the results came in.
pub proof fn lemma_parallel_map<T, U, F: FnOnce(T) -> U>(
    input: Seq<T>,
    f: F,
    results: Seq<ResultUnit<U>>,
)
    requires
        results.len() == input.len(),
        one_each(input.len(), results),
        forall|j: int|
            0 <= j < results.len() ==> call_ensures(
                f,
                (input[(#[trigger] results[j]).idx as int],),
                results[j].res,
            ),
    ensures
        collected(input.len(), results).len() == input.len(),
        forall|i: int|
            0 <= i < input.len() ==> {
                &&& #[trigger] collected(input.len(), results)[i] is Some
                &&& call_ensures(f, (input[i],), collected(input.len(), results)[i]->0)
            },
{
    let output = collected(input.len(), results);
    lemma_results_end_in_place(input.len(), results);
    assert forall|i: int| 0 <= i < input.len() implies {
        &&& #[trigger] output[i] is Some
        &&& call_ensures(f, (input[i],), output[i]->0)
    } by {
        lemma_no_item_left_out(input.len(), results, i);
        let j = choose|j: int| 0 <= j < results.len() && (#[trigger] results[j]).idx == i;
        assert(output[results[j].idx as int] == Some(results[j].res));
    }
}

/// The order in which results come in makes no difference.
pub proof fn lemma_order_does_not_matter<U>(
    len: nat,
    results: Seq<ResultUnit<U>>,
    reordered: Seq<ResultUnit<U>>,
)
    requires
        one_each(len, results),
        one_each(len, reordered),
        forall|unit: ResultUnit<U>| results.contains(unit) <==> reordered.contains(unit),
    ensures
        collected(len, results) == collected(len, reordered),
{
    lemma_results_end_in_place(len, results);
    lemma_results_end_in_place(len, reordered);
    let one = collected(len, results);
    let other = collected(len, reordered);
    assert forall|i: int| 0 <= i < len implies one[i] == other[i] by {
        if exists|j: int| 0 <= j < results.len() && (#[trigger] results[j]).idx == i {
            let j = choose|j: int| 0 <= j < results.len() && (#[trigger] results[j]).idx == i;
            assert(results.contains(results[j]));
            assert(reordered.contains(results[j]));
            let k = choose|k: int| 0 <= k < reordered.len() && reordered[k] == results[j];
            assert(other[reordered[k].idx as int] == Some(reordered[k].res));
            assert(one[results[j].idx as int] == Some(results[j].res));
        } else {
            assert forall|k: int| 0 <= k < reordered.len() implies (#[trigger] reordered[k]).idx
                != i by {
                assert(reordered.contains(reordered[k]));
                let j = choose|j: int| 0 <= j < results.len() && results[j] == reordered[k];
                assert(results[j].idx != i);
            }
            assert(one[i] is None && other[i] is None);
        }
    }
    assert(one =~= other);
}

/// A result changes its own place and no other. A later result for the same
/// place replaces an earlier one.
pub proof fn lemma_store_changes_one_place<U>(
    slots: Seq<Option<U>>,
    unit: ResultUnit<U>,
    later: ResultUnit<U>,
    i: int,
)
    requires
        unit.idx < slots.len(),
        0 <= i < slots.len(),
    ensures
        stored(slots, unit).len() == slots.len(),
        stored(slots, unit)[unit.idx as int] == Some(unit.res),
        i != unit.idx ==> stored(slots, unit)[i] == slots[i],
        later.idx == unit.idx ==> stored(stored(slots, unit), later) == stored(slots, later),
{
    if later.idx == unit.idx {
        assert(stored(stored(slots, unit), later) =~= stored(slots, later));
    }
}

/// Before any result has come in, every place is there and is empty.
pub proof fn lemma_vacant<U>(len: nat, i: int)
    requires
        0 <= i < len,
    ensures
        vacant::<U>(len).len() == len,
        vacant::<U>(len)[i] is None,
{
}

/// An item that was given its place and worked on has its result in that
/// place.
pub proof fn lemma_units_keep_their_place<T, U, F: FnOnce(T) -> U>(
    input: Vec<T>,
    units: Vec<InputUnit<T>>,
    i: usize,
    f: F,
    result: ResultUnit<U>,
)
    requires
        call_ensures(tag_inputs::<T>, (input,), units),
        i < input@.len(),
        call_ensures(run_unit::<T, U, F>, (units@[i as int], f), result),
    ensures
        units@.len() == input@.len(),
        result.idx == i,
        call_ensures(f, (input@[i as int],), result.res),
{
    assert(units@[i as int] == InputUnit { idx: i, item: input@[i as int] });
}

} // verus!
