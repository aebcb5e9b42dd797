//! Compactions of a range of keys that a user asks for.

use vstd::prelude::*;

use crate::db_impl::property;
use crate::db_impl::sizes;
use crate::db_impl::sizes_laws;
use crate::format::NUM_LEVELS;
use crate::version_set::FileMetaData;

verus! {

/// Whether a level can be compacted into the next.
pub fn has_next_level(level: usize) -> (answer: bool)
    ensures
        answer == (level + 1 < NUM_LEVELS),
{
    level < NUM_LEVELS - 1
}

/// The deepest level that overlaps a range; the first, if no other does. All levels down
/// to that one are compacted.
pub fn deepest_overlap(overlaps: &Vec<bool>) -> (deepest: usize)
    ensures
        deepest == 0 || (deepest < overlaps@.len() && overlaps@[deepest as int]),
        forall|level: int| deepest < level < overlaps@.len() ==> !#[trigger] overlaps@[level],
{
    let mut deepest: usize = 0;
    let mut level: usize = 1;
    while level < overlaps.len()
        invariant
            1 <= level,
            deepest < level,
            deepest == 0 || (deepest < overlaps@.len() && overlaps@[deepest as int]),
            forall|l: int|
                deepest < l < level && l < overlaps@.len() ==> !#[trigger] overlaps@[l],
        decreases overlaps@.len() - level,
    {
        if overlaps[level] {
            deepest = level;
        }
        level = level + 1;
    }
    deepest
}

/// The size of the tables of a group, or the greatest number there is.
pub open spec fn group_size(files: Seq<FileMetaData>) -> u64 {
    sizes::capped(crate::db_impl::compaction::size_sum(files))
}

/// The greatest size of some groups of tables.
pub open spec fn largest_size(groups: Seq<Vec<FileMetaData>>) -> u64
    decreases groups.len(),
{
    if groups.len() == 0 {
        0
    } else {
        let front = largest_size(groups.drop_last());
        if group_size(groups.last()@) > front {
            group_size(groups.last()@)
        } else {
            front
        }
    }
}

/// Finds the greatest size of some groups of tables, such as those that tables overlap
/// in the next level.
pub fn max_overlapping_bytes(groups: &Vec<Vec<FileMetaData>>) -> (largest: u64)
    ensures
        largest == largest_size(groups@),
        forall|i: int|
            0 <= i < groups@.len() ==> sizes_laws::told(
                sizes_laws::total(sizes_laws::file_sizes((#[trigger] groups@[i])@)),
            ) <= largest,
        groups@.len() > 0 ==> exists|i: int|
            0 <= i < groups@.len() && sizes_laws::told(
                sizes_laws::total(sizes_laws::file_sizes((#[trigger] groups@[i])@)),
            ) == largest,
        groups@.len() == 0 ==> largest == 0,
{
    let mut largest: u64 = 0;
    let mut index: usize = 0;
    assert(groups@.take(0) =~= Seq::<Vec<FileMetaData>>::empty());
    while index < groups.len()
        invariant
            index <= groups@.len(),
            largest == largest_size(groups@.take(index as int)),
            forall|i: int|
                0 <= i < index ==> sizes_laws::told(
                    sizes_laws::total(sizes_laws::file_sizes((#[trigger] groups@[i])@)),
                ) <= largest,
            index > 0 ==> exists|i: int|
                0 <= i < index && sizes_laws::told(
                    sizes_laws::total(sizes_laws::file_sizes((#[trigger] groups@[i])@)),
                ) == largest,
            index == 0 ==> largest == 0,
        decreases groups@.len() - index,
    {
        proof {
            let more = groups@.take(index + 1);
            assert(more.drop_last() =~= groups@.take(index as int));
            assert(more.last() == groups@[index as int]);
            sizes_laws::law_size_sum(groups@[index as int]@);
        }
        let size: u64 = property::total_bytes(&groups[index]);
        proof {
            let group = groups@[index as int]@;
            assert(size == sizes_laws::told(sizes_laws::total(sizes_laws::file_sizes(group))));
        }
        if size > largest {
            largest = size;
        }
        index = index + 1;
    }
    assert(groups@.take(index as int) =~= groups@);
    largest
}

} // verus!
