//! Lists of file numbers.

use vstd::prelude::*;

verus! {

/// Whether numbers rise, so that none is there twice.
pub open spec fn rising(numbers: Seq<u64>) -> bool {
    forall|i: int, j: int| 0 <= i < j < numbers.len() ==> numbers[i] < numbers[j]
}

/// Whether numbers do not fall.
pub open spec fn not_falling(numbers: Seq<u64>) -> bool {
    forall|i: int, j: int| 0 <= i < j < numbers.len() ==> numbers[i] <= numbers[j]
}

/// Puts a number in its place, behind those that are not greater.
pub fn insert_number(numbers: &mut Vec<u64>, number: u64)
    requires
        not_falling(old(numbers)@),
    ensures
        not_falling(final(numbers)@),
        final(numbers)@.to_multiset() == old(numbers)@.to_multiset().insert(number),
        final(numbers)@.len() == old(numbers)@.len() + 1,
{
    let mut place: usize = numbers.len();
    while place > 0 && numbers[place - 1] > number
        invariant
            place <= numbers@.len(),
            numbers@ == old(numbers)@,
            not_falling(numbers@),
            forall|i: int| place <= i < numbers@.len() ==> numbers@[i] > number,
        decreases place,
    {
        place = place - 1;
    }
    numbers.insert(place, number);
    proof {
        let before = old(numbers)@;
        let after = numbers@;
        assert(after =~= before.insert(place as int, number));
        after.to_multiset_ensures();
        assert(after.remove(place as int) =~= before);
        assert(after[place as int] == number);
        assert(after.contains(number));
        assert(after.to_multiset() =~= before.to_multiset().insert(number));
        assert forall|i: int, j: int| 0 <= i < j < after.len() implies after[i] <= after[j] by {
            if i == place {
                assert(after[j] == before[j - 1]);
            } else if j == place {
                assert(after[i] == before[i]);
                if place > 0 {
                    assert(before[i] <= before[place - 1]);
                }
            } else {
                let a = if i < place { i } else { i - 1 };
                let b = if j < place { j } else { j - 1 };
                assert(after[i] == before[a] && after[j] == before[b]);
            }
        }
    }
}

/// The numbers in order, each as often as it was there.
pub fn sorted_numbers(numbers: &Vec<u64>) -> (sorted: Vec<u64>)
    ensures
        not_falling(sorted@),
        sorted@.to_multiset() == numbers@.to_multiset(),
{
    let mut sorted: Vec<u64> = Vec::new();
    let mut index: usize = 0;
    assert(numbers@.take(0) =~= sorted@);
    while index < numbers.len()
        invariant
            index <= numbers@.len(),
            not_falling(sorted@),
            sorted@.to_multiset() == numbers@.take(index as int).to_multiset(),
        decreases numbers@.len() - index,
    {
        insert_number(&mut sorted, numbers[index]);
        proof {
            broadcast use vstd::seq_lib::group_to_multiset_ensures;

            let more = numbers@.take(index + 1);
            assert(more =~= numbers@.take(index as int).push(numbers@[index as int]));
        }
        index = index + 1;
    }
    assert(numbers@.take(index as int) =~= numbers@);
    sorted
}

/// The numbers in order, each once.
pub fn sorted_distinct(numbers: &Vec<u64>) -> (sorted: Vec<u64>)
    ensures
        rising(sorted@),
        forall|number: u64| sorted@.contains(number) <==> numbers@.contains(number),
{
    let mut sorted: Vec<u64> = Vec::new();
    let mut index: usize = 0;
    while index < numbers.len()
        invariant
            index <= numbers@.len(),
            rising(sorted@),
            forall|number: u64|
                sorted@.contains(number) <==> numbers@.take(index as int).contains(number),
        decreases numbers@.len() - index,
    {
        let number: u64 = numbers[index];
        let ghost seen = numbers@.take(index as int);
        let ghost more = numbers@.take(index + 1);
        let ghost before = sorted@;
        let mut place: usize = sorted.len();
        while place > 0 && sorted[place - 1] > number
            invariant
                place <= sorted@.len(),
                sorted@ == before,
                rising(sorted@),
                forall|i: int| place <= i < sorted@.len() ==> sorted@[i] > number,
            decreases place,
        {
            place = place - 1;
        }
        let known = place > 0 && sorted[place - 1] == number;
        if !known {
            sorted.insert(place, number);
        }
        proof {
            let after = sorted@;
            assert forall|one: u64| more.contains(one) <==> seen.contains(one) || one
                == number by {
                if seen.contains(one) {
                    let k = choose|k: int| 0 <= k < seen.len() && seen[k] == one;
                    assert(more[k] == one);
                }
                if one == number {
                    assert(more[index as int] == one);
                }
                if more.contains(one) {
                    let k = choose|k: int| 0 <= k < more.len() && more[k] == one;
                    if k < index {
                        assert(seen[k] == one);
                    }
                }
            }
            if known {
                assert(before[place - 1] == number);
            } else {
                assert(after =~= before.insert(place as int, number));
                assert forall|i: int, j: int| 0 <= i < j < after.len() implies after[i]
                    < after[j] by {
                    if i == place {
                        assert(after[j] == before[j - 1]);
                    } else if j == place {
                        assert(after[i] == before[i]);
                        assert(before[i] <= before[place - 1]);
                    } else {
                        let a = if i < place { i } else { i - 1 };
                        let b = if j < place { j } else { j - 1 };
                        assert(after[i] == before[a] && after[j] == before[b]);
                    }
                }
                assert forall|one: u64| after.contains(one) <==> before.contains(one) || one
                    == number by {
                    if before.contains(one) {
                        let k = choose|k: int| 0 <= k < before.len() && before[k] == one;
                        if k < place {
                            assert(after[k] == one);
                        } else {
                            assert(after[k + 1] == one);
                        }
                    }
                    if one == number {
                        assert(after[place as int] == one);
                    }
                    if after.contains(one) {
                        let k = choose|k: int| 0 <= k < after.len() && after[k] == one;
                        if k < place {
                            assert(before[k] == one);
                        } else if k > place {
                            assert(before[k - 1] == one);
                        }
                    }
                }
            }
        }
        index = index + 1;
    }
    assert(numbers@.take(index as int) =~= numbers@);
    sorted
}

} // verus!
