//! Compaction.
//!
//! A compaction reads the entries of some tables in the order of their keys, drops
//! those that no reader can see any more, and writes the others to new tables of the
//! next level.

use vstd::prelude::*;

use crate::comparator;
use crate::comparator::Comparator;
use crate::db_impl::entry_sort;
use crate::db_impl::table_output;
use crate::db_iter::db_iterator;
use crate::db_iter::seen;
use crate::db_iter::seen::Seen;
use crate::db_iter::user_view;
use crate::env::WritableFile;
use crate::filter::FilterPolicy;
use crate::format::InternalKeyComparator;
use crate::status;
use crate::status::Status;
use crate::table::draft::Draft;
use crate::table::table_iterator;
use crate::table::Compressor;
use crate::table::TableFileBuilder;
use crate::version_set::CompactPointer;
use crate::version_set::DeletedFile;
use crate::version_set::FileMetaData;
use crate::version_set::FileModel;
use crate::version_set::NewFile;
use crate::version_set::VersionEdit;

verus! {

/// Knows the levels below those that are compacted.
pub trait DeeperLevels {
    /// Whether no deeper level has entries of the key.
    spec fn is_base(&self, user_key: Seq<u8>) -> bool;

    fn is_base_level_for_key(&self, user_key: &[u8]) -> (answer: bool)
        ensures
            answer == self.is_base(user_key@),
    ;
}

/// Whether a table may have entries of a key.
pub open spec fn covers<C: Comparator>(user: C, file: FileModel, user_key: Seq<u8>) -> bool {
    &&& file.smallest.len() >= 8 && user.admits(crate::format::user_part(file.smallest))
        ==> !user.less(user_key, crate::format::user_part(file.smallest))
    &&& file.largest.len() >= 8 && user.admits(crate::format::user_part(file.largest))
        ==> !user.less(crate::format::user_part(file.largest), user_key)
}

/// Whether the bounds of a table are internal keys of user keys that can be compared.
pub open spec fn has_bounds<C: Comparator>(user: C, file: FileMetaData) -> bool {
    &&& file.smallest@.len() >= 8
    &&& file.largest@.len() >= 8
    &&& user.admits(crate::format::user_part(file.smallest@))
    &&& user.admits(crate::format::user_part(file.largest@))
}

/// The tables of the deeper levels.
pub struct DeeperFiles<C: Comparator> {
    pub comparator: C,
    pub files: Vec<FileMetaData>,
}

impl<C: Comparator> DeeperLevels for DeeperFiles<C> {
    open spec fn is_base(&self, user_key: Seq<u8>) -> bool {
        self.comparator.admits(user_key) && forall|i: int|
            0 <= i < self.files@.len() ==> !covers(
                self.comparator,
                (#[trigger] self.files@[i]).model(),
                user_key,
            )
    }

    fn is_base_level_for_key(&self, user_key: &[u8]) -> (answer: bool)
        ensures
            answer ==> forall|i: int|
                0 <= i < self.files@.len() && has_bounds(
                    self.comparator,
                    #[trigger] self.files@[i],
                ) ==> self.comparator.less(
                    user_key@,
                    crate::format::user_part(self.files@[i].smallest@),
                ) || self.comparator.less(
                    crate::format::user_part(self.files@[i].largest@),
                    user_key@,
                ),
    {
        if !self.comparator.accepts(user_key) {
            return false;
        }
        let mut index: usize = 0;
        while index < self.files.len()
            invariant
                index <= self.files@.len(),
                self.comparator.admits(user_key@),
                forall|i: int|
                    0 <= i < index ==> !covers(
                        self.comparator,
                        (#[trigger] self.files@[i]).model(),
                        user_key@,
                    ),
            decreases self.files@.len() - index,
        {
            let file = &self.files[index];
            let mut outside = false;
            if file.smallest.len() >= 8 {
                let first = crate::format::required_user_key(file.smallest.as_slice());
                if self.comparator.accepts(first) && comparator::precedes(
                    &self.comparator,
                    user_key,
                    first,
                ) {
                    outside = true;
                }
            }
            if file.largest.len() >= 8 {
                let last = crate::format::required_user_key(file.largest.as_slice());
                if self.comparator.accepts(last) && comparator::precedes(
                    &self.comparator,
                    last,
                    user_key,
                ) {
                    outside = true;
                }
            }
            if !outside {
                assert(covers(self.comparator, self.files@[index as int].model(), user_key@));
                return false;
            }
            index = index + 1;
        }
        true
    }
}

/// The sequence number of the entry in front of one, if that has the same user key.
pub open spec fn sequence_before(input: Seq<db_iterator::Pair>, index: int) -> nat {
    if index > 0 && crate::format::user_part(input[index - 1].0) == crate::format::user_part(
        input[index].0,
    ) {
        crate::format::tag_part(input[index - 1].0) / 256
    } else {
        u64::MAX as nat
    }
}

/// Whether an entry is dropped: a newer one of its key is old enough for all snapshots,
/// or it is a deletion that is itself old enough and has nothing to hide.
pub open spec fn is_dropped<L: DeeperLevels>(
    input: Seq<db_iterator::Pair>,
    index: int,
    smallest_snapshot: u64,
    levels: L,
) -> bool {
    let tag = crate::format::tag_part(input[index].0);
    ||| sequence_before(input, index) <= smallest_snapshot
    ||| tag % 256 == 0 && tag / 256 <= smallest_snapshot && levels.is_base(
        crate::format::user_part(input[index].0),
    )
}

/// The entries from a place on that are kept.
pub open spec fn kept_from<L: DeeperLevels>(
    input: Seq<db_iterator::Pair>,
    from: int,
    smallest_snapshot: u64,
    levels: L,
) -> Seq<db_iterator::Pair>
    decreases input.len() - from,
{
    if from < 0 || from >= input.len() {
        Seq::empty()
    } else if is_dropped(input, from, smallest_snapshot, levels) {
        kept_from(input, from + 1, smallest_snapshot, levels)
    } else {
        seq![input[from]] + kept_from(input, from + 1, smallest_snapshot, levels)
    }
}

/// The entries of the tables that are compacted, and how many of them are done.
pub struct CompactionRun<C: Comparator, L: DeeperLevels> {
    comparator: InternalKeyComparator<C>,
    entries: Vec<(Vec<u8>, Vec<u8>)>,
    order: Vec<usize>,
    position: usize,
    smallest_snapshot: u64,
    levels: L,
}

impl<C: Comparator, L: DeeperLevels> CompactionRun<C, L> {
    /// The entries as they were read.
    pub closed spec fn read(&self) -> Seq<db_iterator::Pair> {
        table_iterator::pair_views(self.entries@)
    }

    /// The places of the entries in the order of their keys.
    pub closed spec fn ranks(&self) -> Seq<usize> {
        self.order@
    }

    /// The entries in the order of their keys.
    pub open spec fn input(&self) -> Seq<db_iterator::Pair> {
        Seq::new(self.ranks().len(), |i: int| self.read()[self.ranks()[i] as int])
    }

    /// How many entries are done.
    pub closed spec fn done(&self) -> int {
        self.position as int
    }

    /// The oldest snapshot.
    pub closed spec fn snapshot(&self) -> u64 {
        self.smallest_snapshot
    }

    /// The deeper levels.
    pub closed spec fn deeper(&self) -> L {
        self.levels
    }

    /// The order of the keys.
    pub closed spec fn key_order(&self) -> InternalKeyComparator<C> {
        self.comparator
    }

    /// The entries are in order, and can be compared.
    pub closed spec fn wf(&self) -> bool {
        &&& self.position <= self.order@.len()
        &&& entry_sort::all_comparable(self.comparator, self.read())
        &&& entry_sort::is_sorted_by(self.comparator, self.read(), self.order@)
        &&& entry_sort::all_within(self.order@, self.entries@.len())
    }

    /// The entries that are still to be written.
    pub open spec fn rest(&self) -> Seq<db_iterator::Pair> {
        kept_from(self.input(), self.done(), self.snapshot(), self.deeper())
    }

    /// Whether another run is over the same entries.
    pub open spec fn same_run(&self, other: Self) -> bool {
        &&& self.read() == other.read()
        &&& self.ranks() == other.ranks()
        &&& self.snapshot() == other.snapshot()
        &&& self.deeper() == other.deeper()
        &&& self.key_order() == other.key_order()
    }

    /// The entries are in the order of their keys.
    pub proof fn lemma_input(&self)
        requires
            self.wf(),
        ensures
            entry_sort::is_sorted_by(self.key_order(), self.read(), self.ranks()),
            entry_sort::all_comparable(self.key_order(), self.input()),
            0 <= self.done() <= self.input().len(),
    {
        assert forall|i: int| 0 <= i < self.input().len() implies self.key_order().admits(
            #[trigger] self.input()[i].0,
        ) by {
            assert(self.order@[i] < self.entries@.len());
            assert(self.comparator.admits(self.read()[self.order@[i] as int].0));
        }
    }

    /// Starts a compaction of the entries that were read; an error if one has a
    /// malformed key.
    pub fn new(
        comparator: InternalKeyComparator<C>,
        entries: Vec<(Vec<u8>, Vec<u8>)>,
        smallest_snapshot: u64,
        levels: L,
    ) -> (run: status::Result<Self>)
        ensures
            run is Ok == entry_sort::all_comparable(
                comparator,
                table_iterator::pair_views(entries@),
            ),
            run matches Ok(started) ==> {
                &&& started.wf()
                &&& started.read() == table_iterator::pair_views(entries@)
                &&& started.done() == 0
                &&& started.snapshot() == smallest_snapshot
                &&& started.deeper() == levels
                &&& started.key_order() == comparator
            },
            run matches Err(error) ==> error.says(
                status::Code::Corruption,
                "compaction input with a malformed key"@,
            ),
    {
        if !entry_sort::can_compare_all(&comparator, &entries) {
            return Err(Status::corruption("compaction input with a malformed key"));
        }
        let order = entry_sort::sorted_order(&comparator, &entries);
        Ok(CompactionRun { comparator, entries, order, position: 0, smallest_snapshot, levels })
    }

    /// The order of the keys.
    pub fn comparator(&self) -> (comparator: &InternalKeyComparator<C>)
        ensures
            *comparator == self.key_order(),
    {
        &self.comparator
    }

    /// Whether the entry at the current place is dropped.
    fn drops(&self) -> (answer: bool)
        requires
            self.wf(),
            self.done() < self.input().len(),
        ensures
            answer == is_dropped(self.input(), self.done(), self.snapshot(), self.deeper()),
    {
        proof {
            self.lemma_input();
            assert(self.order@[self.position as int] < self.entries@.len());
            assert(self.key_order().admits(self.input()[self.position as int].0));
        }
        let key = self.entries[self.order[self.position]].0.as_slice();
        assert(key@ == self.input()[self.position as int].0);
        let user_key = crate::format::required_user_key(key);
        let tag: u64 = crate::format::required_tag(key);
        if self.position > 0 {
            proof {
                assert(self.order@[self.position - 1] < self.entries@.len());
                assert(self.key_order().admits(self.input()[self.position - 1].0));
            }
            let earlier = self.entries[self.order[self.position - 1]].0.as_slice();
            assert(earlier@ == self.input()[self.position - 1].0);
            if crate::cache::same_bytes(crate::format::required_user_key(earlier), user_key)
                && crate::format::required_tag(earlier) / 256 <= self.smallest_snapshot {
                return true;
            }
        }
        if self.smallest_snapshot == u64::MAX {
            return true;
        }
        tag % 256 == 0 && tag / 256 <= self.smallest_snapshot && self.levels.is_base_level_for_key(
            user_key,
        )
    }

    /// Passes over entries that are dropped. Returns whether there is one to write.
    pub fn advance(&mut self) -> (more: bool)
        requires
            old(self).wf(),
        ensures
            final(self).wf(),
            final(self).same_run(*old(self)),
            final(self).rest() == old(self).rest(),
            final(self).done() >= old(self).done(),
            more == (old(self).rest().len() > 0),
            more ==> final(self).done() < final(self).input().len() && !is_dropped(
                final(self).input(),
                final(self).done(),
                final(self).snapshot(),
                final(self).deeper(),
            ),
    {
        let ghost start = *self;
        while self.position < self.order.len()
            invariant
                self.wf(),
                start == *old(self),
                self.same_run(start),
                self.done() >= start.done(),
                self.input() == start.input(),
                self.rest() == start.rest(),
            decreases self.order@.len() - self.position,
        {
            if !self.drops() {
                return true;
            }
            let ghost before = *self;
            self.position = self.position + 1;
            assert(self.input() =~= before.input());
        }
        false
    }

    /// Writes entries to a table until it is large enough or there are no more. Returns
    /// the first and the last key.
    #[verifier::spinoff_prover]
    #[verifier::rlimit(40)]
    pub fn fill_output<W: WritableFile, P: FilterPolicy, Z: Compressor>(
        &mut self,
        builder: &mut TableFileBuilder<InternalKeyComparator<C>, W, P, Z>,
        max_output_file_size: u64,
    ) -> (filled: status::Result<(Vec<u8>, Vec<u8>)>)
        requires
            old(self).wf(),
            old(self).rest().len() > 0,
            old(builder).wf(),
            old(builder).draft() == Draft::blank(),
            old(builder).recipe().comparator == old(self).key_order(),
        ensures
            final(self).wf(),
            final(self).same_run(*old(self)),
            final(builder).recipe() == old(builder).recipe(),
            final(builder).prefix() == old(builder).prefix(),
            filled matches Ok((smallest, largest)) ==> {
                let recipe = old(builder).recipe();
                let count = old(self).rest().len() - final(self).rest().len();
                let taken = old(self).rest().take(count);
                &&& 0 < count <= old(self).rest().len()
                &&& old(self).rest() == taken + final(self).rest()
                &&& final(builder).wf()
                &&& final(builder).draft() == table_output::drafted(recipe, Draft::blank(), taken)
                &&& final(builder).draft().entries() == taken
                &&& smallest@ == taken[0].0
                &&& largest@ == taken.last().0
                &&& final(self).rest().len() == 0 || final(builder).size() >= max_output_file_size
                &&& forall|fewer: int|
                    0 < fewer < count ==> (#[trigger] table_output::drafted(
                        recipe,
                        Draft::blank(),
                        taken.take(fewer),
                    )).written.len() < max_output_file_size
                &&& final(builder).sink().reliable() == old(builder).sink().reliable()
            },
            old(builder).sink().reliable() && db_iterator::sorted(
                old(self).key_order(),
                old(self).input(),
            ) && old(self).rest().len() < u64::MAX ==> filled is Ok,
    {
        let ghost recipe = builder.recipe();
        let ghost all = self.rest();
        let ghost start = *self;
        let mut smallest: Vec<u8> = Vec::new();
        let mut largest: Vec<u8> = Vec::new();
        let mut begun = false;
        let mut filling = true;
        let ghost mut count: int = 0;
        let ghost in_order = db_iterator::sorted(self.key_order(), self.input()) && all.len()
            < u64::MAX;
        proof {
            assert(all.take(0) =~= Seq::<db_iterator::Pair>::empty());
            assert(all.skip(0) =~= all);
            assert(Draft::blank().entries() =~= Seq::<db_iterator::Pair>::empty());
        }
        while filling
            invariant
                self.wf(),
                self.same_run(start),
                self.input() == start.input(),
                start == *old(self),
                all == start.rest(),
                all.len() > 0,
                in_order == (db_iterator::sorted(start.key_order(), start.input()) && all.len()
                    < u64::MAX),
                0 <= count <= all.len(),
                self.rest() == all.skip(count),
                recipe == old(builder).recipe(),
                recipe.comparator == start.key_order(),
                builder.recipe() == recipe,
                builder.prefix() == old(builder).prefix(),
                builder.sink().reliable() == old(builder).sink().reliable(),
                builder.wf(),
                builder.draft() == table_output::drafted(recipe, Draft::blank(), all.take(count)),
                builder.draft().entries() == all.take(count),
                begun == (count > 0),
                count > 0 ==> smallest@ == all[0].0 && largest@ == all[count - 1].0
                    && recipe.comparator.admits(largest@),
                count > 0 && in_order ==> exists|i: int|
                    0 <= i < self.done() && #[trigger] start.input()[i].0 == largest@,
                !filling ==> count > 0 && (count == all.len() || builder.size()
                    >= max_output_file_size),
                filling && count > 0 ==> builder.size() < max_output_file_size,
                forall|fewer: int|
                    0 < fewer < count ==> (#[trigger] table_output::drafted(
                        recipe,
                        Draft::blank(),
                        all.take(fewer),
                    )).written.len() < max_output_file_size,
            decreases
                all.len() - count,
                if filling {
                    1int
                } else {
                    0int
                },
        {
            let ghost at = *self;
            if !self.advance() {
                assert(all.skip(count).len() == 0);
                filling = false;
            } else {
                let ghost place = self.done();
                let total: usize = self.order.len();
                assert(self.position < total);
                proof {
                    self.lemma_input();
                    builder.lemma_wf();
                    assert(self.position < self.order@.len());
                    assert(self.order@[self.position as int] < self.entries@.len());
                    assert(self.input() =~= start.input());
                    assert(self.rest() == seq![self.input()[place]] + kept_from(
                        self.input(),
                        place + 1,
                        self.snapshot(),
                        self.deeper(),
                    ));
                    assert(all[count] == all.skip(count)[0]);
                    assert(all[count] == self.input()[place]);
                    let more = all.take(count + 1);
                    assert(more.drop_last() =~= all.take(count));
                    assert(more.last() == all[count]);
                    if count > 0 {
                        table_output::lemma_last_key(recipe, builder.draft());
                        assert(all.take(count).last() == all[count - 1]);
                        if in_order {
                            let i = choose|i: int|
                                0 <= i < at.done() && #[trigger] start.input()[i].0 == largest@;
                            assert(self.key_order().less(
                                start.input()[i].0,
                                start.input()[place].0,
                            ));
                        }
                    }
                }
                let entry = &self.entries[self.order[self.position]];
                assert(entry.0@ == self.input()[place].0 && entry.1@ == self.input()[place].1);
                let last: Option<&[u8]> = if begun {
                    Some(largest.as_slice())
                } else {
                    None
                };
                match table_output::add_in_order(
                    builder,
                    last,
                    entry.0.as_slice(),
                    entry.1.as_slice(),
                    &self.comparator,
                ) {
                    Err(error) => {
                        return Err(error);
                    },
                    Ok(_) => {},
                }
                largest = vstd::slice::slice_to_vec(entry.0.as_slice());
                if !begun {
                    smallest = vstd::slice::slice_to_vec(entry.0.as_slice());
                    begun = true;
                }
                self.position = self.position + 1;
                proof {
                    let one = all[count];
                    assert(self.input() =~= start.input());
                    assert(all.take(count + 1) =~= all.take(count).push(one));
                    assert(self.rest() =~= all.skip(count + 1)) by {
                        assert(all.skip(count) =~= seq![one] + self.rest());
                        assert(all.skip(count + 1) =~= all.skip(count).skip(1));
                        assert((seq![one] + self.rest()).skip(1) =~= self.rest());
                    }
                    assert(start.input()[place].0 == largest@);
                    assert forall|fewer: int| 0 < fewer < count + 1 implies (
                    #[trigger] table_output::drafted(
                        recipe,
                        Draft::blank(),
                        all.take(fewer),
                    )).written.len() < max_output_file_size by {
                        if fewer == count {
                            assert(at.rest() == all.skip(count));
                        }
                    }
                    count = count + 1;
                    builder.lemma_wf();
                }
                if builder.file_size() >= max_output_file_size {
                    filling = false;
                }
            }
        }
        proof {
            let taken = all.take(count);
            assert(all.len() - self.rest().len() == count);
            assert(all =~= taken + self.rest());
            assert forall|fewer: int| 0 < fewer < count implies (#[trigger] table_output::drafted(
                recipe,
                Draft::blank(),
                taken.take(fewer),
            )).written.len() < max_output_file_size by {
                assert(taken.take(fewer) =~= all.take(fewer));
            }
        }
        Ok((smallest, largest))
    }
}

// ---------------------------------------------------------------------------
// What readers see of the entries that are kept
// ---------------------------------------------------------------------------

/// An entry that is kept is one of the entries.
proof fn lemma_kept_within<L: DeeperLevels>(
    input: Seq<db_iterator::Pair>,
    from: int,
    smallest_snapshot: u64,
    levels: L,
    k: int,
) -> (index: int)
    requires
        0 <= from <= input.len(),
        0 <= k < kept_from(input, from, smallest_snapshot, levels).len(),
    ensures
        from <= index < input.len(),
        kept_from(input, from, smallest_snapshot, levels)[k] == input[index],
        !is_dropped(input, index, smallest_snapshot, levels),
    decreases input.len() - from,
{
    if is_dropped(input, from, smallest_snapshot, levels) {
        lemma_kept_within(input, from + 1, smallest_snapshot, levels, k)
    } else if k == 0 {
        from
    } else {
        let rest = kept_from(input, from + 1, smallest_snapshot, levels);
        assert((seq![input[from]] + rest)[k] == rest[k - 1]);
        lemma_kept_within(input, from + 1, smallest_snapshot, levels, k - 1)
    }
}

/// An entry that is not dropped is kept.
proof fn lemma_not_dropped<L: DeeperLevels>(
    input: Seq<db_iterator::Pair>,
    from: int,
    smallest_snapshot: u64,
    levels: L,
    index: int,
) -> (k: int)
    requires
        0 <= from <= index < input.len(),
        !is_dropped(input, index, smallest_snapshot, levels),
    ensures
        0 <= k < kept_from(input, from, smallest_snapshot, levels).len(),
        kept_from(input, from, smallest_snapshot, levels)[k] == input[index],
    decreases input.len() - from,
{
    let rest = kept_from(input, from + 1, smallest_snapshot, levels);
    if from == index {
        assert((seq![input[from]] + rest)[0] == input[from]);
        0
    } else {
        let k = lemma_not_dropped(input, from + 1, smallest_snapshot, levels, index);
        if is_dropped(input, from, smallest_snapshot, levels) {
            k
        } else {
            assert((seq![input[from]] + rest)[k + 1] == rest[k]);
            k + 1
        }
    }
}

/// What is kept of sorted entries is sorted.
pub proof fn lemma_kept_sorted<C: Comparator, L: DeeperLevels>(
    order: C,
    input: Seq<db_iterator::Pair>,
    from: int,
    smallest_snapshot: u64,
    levels: L,
)
    requires
        0 <= from <= input.len(),
        db_iterator::sorted(order, input),
    ensures
        db_iterator::sorted(order, kept_from(input, from, smallest_snapshot, levels)),
    decreases input.len() - from,
{
    if from < input.len() {
        lemma_kept_sorted(order, input, from + 1, smallest_snapshot, levels);
        let rest = kept_from(input, from + 1, smallest_snapshot, levels);
        let kept = kept_from(input, from, smallest_snapshot, levels);
        if !is_dropped(input, from, smallest_snapshot, levels) {
            assert forall|i: int| 0 <= i < kept.len() implies order.admits(
                #[trigger] kept[i].0,
            ) by {
                if i > 0 {
                    assert(kept[i] == rest[i - 1]);
                }
            }
            assert forall|i: int, j: int| 0 <= i < j < kept.len() implies order.less(
                #[trigger] kept[i].0,
                #[trigger] kept[j].0,
            ) by {
                assert(kept[j] == rest[j - 1]);
                if i > 0 {
                    assert(kept[i] == rest[i - 1]);
                } else {
                    let index = lemma_kept_within(
                        input,
                        from + 1,
                        smallest_snapshot,
                        levels,
                        j - 1,
                    );
                }
            }
        }
    }
}

/// Whether user keys that count as the same are the same.
pub open spec fn keys_are_plain<C: Comparator>(user: C, input: Seq<db_iterator::Pair>) -> bool {
    forall|i: int, j: int|
        0 <= i < input.len() && 0 <= j < input.len() && user_view::same(
            user,
            user_view::user_of(#[trigger] input[i].0),
            user_view::user_of(#[trigger] input[j].0),
        ) ==> user_view::user_of(input[i].0) == user_view::user_of(input[j].0)
}

/// Entries of one user key stand together, the newest in front.
proof fn lemma_together<C: Comparator>(user: C, input: Seq<db_iterator::Pair>, a: int, b: int)
    requires
        db_iterator::sorted(InternalKeyComparator::over(user), input),
        keys_are_plain(user, input),
        0 <= a < b < input.len(),
        user_view::user_of(input[a].0) == user_view::user_of(input[b].0),
    ensures
        user_view::user_of(input[b - 1].0) == user_view::user_of(input[b].0),
        crate::format::tag_part(input[a].0) > crate::format::tag_part(input[b].0),
        crate::format::tag_part(input[b - 1].0) > crate::format::tag_part(input[b].0),
        crate::format::tag_part(input[a].0) >= crate::format::tag_part(input[b - 1].0),
{
    let order = InternalKeyComparator::over(user);
    InternalKeyComparator::<C>::lemma_over(user);
    let x = user_view::user_of(input[a].0);
    let y = user_view::user_of(input[b - 1].0);
    let z = user_view::user_of(input[b].0);
    assert(order.admits(input[a].0) && order.admits(input[b - 1].0) && order.admits(input[b].0));
    user.less_irreflexive(x);
    assert(order.less(input[a].0, input[b].0));
    assert(order.less(input[b - 1].0, input[b].0));
    user_view::lemma_user_order(user, input[b - 1].0, input[b].0);
    if a < b - 1 {
        assert(order.less(input[a].0, input[b - 1].0));
        user_view::lemma_user_order(user, input[a].0, input[b - 1].0);
        if user.less(y, z) {
            assert(user.less(y, x));
        }
        assert(user_view::same(user, y, z));
        assert(user_view::same(
            user,
            user_view::user_of(input[b - 1].0),
            user_view::user_of(input[b].0),
        ));
    }
}

/// Whether a lookup sees the same, or sees nothing where it saw a deletion that had
/// nothing to hide in deeper levels.
pub open spec fn sees_as_much<C: Comparator, L: DeeperLevels>(
    user: C,
    before: Seen,
    after: Seen,
    levels: L,
    user_key: Seq<u8>,
) -> bool {
    after == before || (before is Deleted && after is Nothing && exists|held: Seq<u8>|
        user_view::same(user, held, user_key) && #[trigger] levels.is_base(held))
}

/// A compaction takes nothing away from readers: at every sequence number from the
/// oldest snapshot on a lookup among the entries that are kept sees what it saw among
/// all entries. Only a deletion of a key that no deeper level has may be gone.
#[verifier::spinoff_prover]
#[verifier::rlimit(40)]
pub proof fn law_compaction_keeps_what_is_seen<C: Comparator, L: DeeperLevels>(
    user: C,
    input: Seq<db_iterator::Pair>,
    smallest_snapshot: u64,
    levels: L,
    sequence: nat,
    user_key: Seq<u8>,
)
    requires
        db_iterator::sorted(InternalKeyComparator::over(user), input),
        seen::contents_sound(user, db_iterator::map_of(input)),
        keys_are_plain(user, input),
        smallest_snapshot <= crate::format::MAX_SEQUENCE_NUMBER,
        smallest_snapshot <= sequence,
        user.admits(user_key),
    ensures
        ({
            let kept = kept_from(input, 0, smallest_snapshot, levels);
            &&& seen::contents_sound(user, db_iterator::map_of(kept))
            &&& sees_as_much(
                user,
                seen::seen_at(user, db_iterator::map_of(input), sequence, user_key),
                seen::seen_at(user, db_iterator::map_of(kept), sequence, user_key),
                levels,
                user_key,
            )
        }),
{
    let order = InternalKeyComparator::over(user);
    let kept = kept_from(input, 0, smallest_snapshot, levels);
    let all = db_iterator::map_of(input);
    let some = db_iterator::map_of(kept);
    lemma_kept_sorted(order, input, 0, smallest_snapshot, levels);
    lemma_kept_map(order, input, smallest_snapshot, levels);
    vstd::set_lib::lemma_len_subset(some.dom(), all.dom());
    assert(seen::contents_sound(user, some)) by {
        assert forall|key: Seq<u8>| #[trigger] some.contains_key(key) implies crate::format::parsed(
            key,
        ) is Some && user.admits(user_view::user_of(key)) by {
            assert(all.contains_key(key));
        }
        assert forall|a: Seq<u8>, b: Seq<u8>|
            #![trigger some.contains_key(a), some.contains_key(b)]
            some.contains_key(a) && some.contains_key(b) && a != b implies order.less(a, b)
            || order.less(b, a) by {
            assert(all.contains_key(a) && all.contains_key(b));
        }
    }
    if exists|key: Seq<u8>| seen::answers(user, all, sequence, user_key, key) {
        let key = choose|key: Seq<u8>| seen::answers(user, all, sequence, user_key, key);
        seen::lemma_answer(user, all, sequence, user_key, key);
        assert(user_view::visible(all, sequence, key));
        assert(all.contains_key(key));
        let at = choose|i: int| 0 <= i < input.len() && #[trigger] input[i].0 == key;
        if is_dropped(input, at, smallest_snapshot, levels) {
            lemma_answer_dropped(user, input, smallest_snapshot, levels, sequence, at);
            lemma_rest_dropped(
                user,
                input,
                smallest_snapshot,
                levels,
                sequence,
                user_key,
                at,
            );
            assert(levels.is_base(user_view::user_of(key)));
        } else {
            let k = lemma_not_dropped(input, 0, smallest_snapshot, levels, at);
            db_iterator::lemma_map_of(order, kept, k);
            assert(some.contains_key(key) && some[key] == all[key]);
            assert forall|other: Seq<u8>| #[trigger]
                user_view::visible(some, sequence, other) && user_view::same(
                    user,
                    user_view::user_of(other),
                    user_view::user_of(key),
                ) && other != key implies order.less(key, other) by {
                assert(all.contains_key(other));
                assert(user_view::visible(all, sequence, other));
            }
            assert(seen::answers(user, some, sequence, user_key, key));
            seen::lemma_answer(user, some, sequence, user_key, key);
        }
    } else if exists|key: Seq<u8>| seen::answers(user, some, sequence, user_key, key) {
        let key = choose|key: Seq<u8>| seen::answers(user, some, sequence, user_key, key);
        assert(user_view::visible(some, sequence, key));
        assert(all.contains_key(key));
        assert(seen::is_candidate(user, all, sequence, user_key, key));
        let found = seen::lemma_some_answer(user, all, sequence, user_key, key);
    }
}

/// What is kept is among all entries, with the same values.
proof fn lemma_kept_map<C: Comparator, L: DeeperLevels>(
    order: C,
    input: Seq<db_iterator::Pair>,
    smallest_snapshot: u64,
    levels: L,
)
    requires
        db_iterator::sorted(order, input),
    ensures
        ({
            let all = db_iterator::map_of(input);
            let some = db_iterator::map_of(kept_from(input, 0, smallest_snapshot, levels));
            &&& forall|key: Seq<u8>| #[trigger]
                some.contains_key(key) ==> all.contains_key(key) && all[key] == some[key]
            &&& some.dom().subset_of(all.dom())
        }),
{
    let kept = kept_from(input, 0, smallest_snapshot, levels);
    let all = db_iterator::map_of(input);
    let some = db_iterator::map_of(kept);
    lemma_kept_sorted(order, input, 0, smallest_snapshot, levels);
    assert forall|key: Seq<u8>| #[trigger] some.contains_key(key) implies all.contains_key(key)
        && all[key] == some[key] by {
        let k = choose|k: int| 0 <= k < kept.len() && #[trigger] kept[k].0 == key;
        let index = lemma_kept_within(input, 0, smallest_snapshot, levels, k);
        db_iterator::lemma_map_of(order, kept, k);
        db_iterator::lemma_map_of(order, input, index);
    }
}

/// The newest entry that is seen can only be dropped as a deletion.
proof fn lemma_answer_dropped<C: Comparator, L: DeeperLevels>(
    user: C,
    input: Seq<db_iterator::Pair>,
    smallest_snapshot: u64,
    levels: L,
    sequence: nat,
    at: int,
)
    requires
        db_iterator::sorted(InternalKeyComparator::over(user), input),
        seen::contents_sound(user, db_iterator::map_of(input)),
        smallest_snapshot <= crate::format::MAX_SEQUENCE_NUMBER,
        smallest_snapshot <= sequence,
        0 <= at < input.len(),
        user_view::newest(user, db_iterator::map_of(input), sequence, input[at].0),
        is_dropped(input, at, smallest_snapshot, levels),
    ensures
        crate::format::tag_part(input[at].0) % 256 == 0,
        crate::format::tag_part(input[at].0) / 256 <= smallest_snapshot,
        levels.is_base(user_view::user_of(input[at].0)),
{
    let order = InternalKeyComparator::over(user);
    let all = db_iterator::map_of(input);
    if sequence_before(input, at) <= smallest_snapshot {
        let key = input[at].0;
        let other = input[at - 1].0;
        db_iterator::lemma_map_of(order, input, at - 1);
        db_iterator::lemma_map_of(order, input, at);
        assert(all.contains_key(other));
        assert(crate::format::parsed(other) is Some);
        assert(user_view::visible(all, sequence, other));
        user.less_irreflexive(user_view::user_of(key));
        db_iterator::lemma_sorted_order(order, input, at - 1, at);
        order.less_irreflexive(key);
        assert(order.less(key, other));
    }
}

/// Behind a deletion that is dropped all older entries of its key are dropped.
proof fn lemma_rest_dropped<C: Comparator, L: DeeperLevels>(
    user: C,
    input: Seq<db_iterator::Pair>,
    smallest_snapshot: u64,
    levels: L,
    sequence: nat,
    user_key: Seq<u8>,
    at: int,
)
    requires
        db_iterator::sorted(InternalKeyComparator::over(user), input),
        seen::contents_sound(user, db_iterator::map_of(input)),
        keys_are_plain(user, input),
        user.admits(user_key),
        0 <= at < input.len(),
        seen::answers(user, db_iterator::map_of(input), sequence, user_key, input[at].0),
        is_dropped(input, at, smallest_snapshot, levels),
        crate::format::tag_part(input[at].0) / 256 <= smallest_snapshot,
    ensures
        seen::seen_at(
            user,
            db_iterator::map_of(kept_from(input, 0, smallest_snapshot, levels)),
            sequence,
            user_key,
        ) is Nothing,
{
    let order = InternalKeyComparator::over(user);
    let all = db_iterator::map_of(input);
    let kept = kept_from(input, 0, smallest_snapshot, levels);
    let some = db_iterator::map_of(kept);
    lemma_kept_sorted(order, input, 0, smallest_snapshot, levels);
    if exists|key: Seq<u8>| seen::answers(user, some, sequence, user_key, key) {
        let key = choose|key: Seq<u8>| seen::answers(user, some, sequence, user_key, key);
        assert(user_view::visible(some, sequence, key));
        let k = choose|k: int| 0 <= k < kept.len() && #[trigger] kept[k].0 == key;
        let index = lemma_kept_within(input, 0, smallest_snapshot, levels, k);
        db_iterator::lemma_map_of(order, input, index);
        db_iterator::lemma_map_of(order, input, at);
        assert(user_view::visible(all, sequence, key));
        user_view::lemma_same_less(
            user,
            user_view::user_of(key),
            user_key,
            user_view::user_of(input[at].0),
        );
        assert(user_view::same(
            user,
            user_view::user_of(input[index].0),
            user_view::user_of(input[at].0),
        ));
        if index != at {
            assert(key != input[at].0) by {
                order.less_irreflexive(key);
                if index < at {
                    db_iterator::lemma_sorted_order(order, input, index, at);
                } else {
                    db_iterator::lemma_sorted_order(order, input, at, index);
                }
            }
            assert(order.less(input[at].0, key));
            if index < at {
                db_iterator::lemma_sorted_order(order, input, index, at);
            } else {
                lemma_together(user, input, at, index);
                let newer = crate::format::tag_part(input[index - 1].0);
                let first = crate::format::tag_part(input[at].0);
                assert(newer / 256 <= first / 256) by (nonlinear_arith)
                    requires
                        newer <= first,
                ;
                assert(sequence_before(input, index) <= smallest_snapshot);
            }
        }
    }
}

// ---------------------------------------------------------------------------
// What the deeper levels have
// ---------------------------------------------------------------------------

/// Where all tables of the deeper levels have bounds, a key is at its base level just if it
/// lies in front of the first key or behind the last key of each of them.
pub proof fn law_base_level_is_outside<C: Comparator>(deeper: DeeperFiles<C>, user_key: Seq<u8>)
    requires
        deeper.comparator.admits(user_key),
        forall|i: int|
            0 <= i < deeper.files@.len() ==> has_bounds(
                deeper.comparator,
                #[trigger] deeper.files@[i],
            ),
    ensures
        deeper.is_base(user_key) <==> forall|i: int|
            0 <= i < deeper.files@.len() ==> deeper.comparator.less(
                user_key,
                crate::format::user_part((#[trigger] deeper.files@[i]).smallest@),
            ) || deeper.comparator.less(
                crate::format::user_part(deeper.files@[i].largest@),
                user_key,
            ),
{
    if deeper.is_base(user_key) {
        assert forall|i: int| 0 <= i < deeper.files@.len() implies deeper.comparator.less(
            user_key,
            crate::format::user_part((#[trigger] deeper.files@[i]).smallest@),
        ) || deeper.comparator.less(
            crate::format::user_part(deeper.files@[i].largest@),
            user_key,
        ) by {
            assert(has_bounds(deeper.comparator, deeper.files@[i]));
            assert(!covers(deeper.comparator, deeper.files@[i].model(), user_key));
        }
    } else {
        let i = choose|i: int|
            0 <= i < deeper.files@.len() && covers(
                deeper.comparator,
                (#[trigger] deeper.files@[i]).model(),
                user_key,
            );
        assert(has_bounds(deeper.comparator, deeper.files@[i]));
    }
}

/// Whether all entries of the deeper levels lie within the bounds of one of their tables.
pub open spec fn lies_in_bounds<C: Comparator>(
    deeper: DeeperFiles<C>,
    contents: Map<Seq<u8>, Seq<u8>>,
) -> bool {
    forall|key: Seq<u8>| #[trigger]
        contents.contains_key(key) ==> exists|i: int|
            0 <= i < deeper.files@.len() && has_bounds(
                deeper.comparator,
                #[trigger] deeper.files@[i],
            ) && !deeper.comparator.less(
                crate::format::user_part(key),
                crate::format::user_part(deeper.files@[i].smallest@),
            ) && !deeper.comparator.less(
                crate::format::user_part(deeper.files@[i].largest@),
                crate::format::user_part(key),
            )
}

/// A key at its base level has no entry in the deeper levels.
pub proof fn law_base_level_has_no_entry<C: Comparator>(
    deeper: DeeperFiles<C>,
    contents: Map<Seq<u8>, Seq<u8>>,
    user_key: Seq<u8>,
    key: Seq<u8>,
)
    requires
        deeper.is_base(user_key),
        lies_in_bounds(deeper, contents),
        contents.contains_key(key),
    ensures
        crate::format::user_part(key) != user_key,
{
    if crate::format::user_part(key) == user_key {
        let i = choose|i: int|
            0 <= i < deeper.files@.len() && has_bounds(
                deeper.comparator,
                #[trigger] deeper.files@[i],
            ) && !deeper.comparator.less(
                crate::format::user_part(key),
                crate::format::user_part(deeper.files@[i].smallest@),
            ) && !deeper.comparator.less(
                crate::format::user_part(deeper.files@[i].largest@),
                crate::format::user_part(key),
            );
        assert(!covers(deeper.comparator, deeper.files@[i].model(), user_key));
    }
}

/// A compaction changes nothing for a reader: at every sequence number from the oldest
/// snapshot on, a lookup that looks among the entries that are kept and then into the deeper
/// levels finds a value just where one that looks among all entries and then into the deeper
/// levels does, and the same one.
pub proof fn law_compaction_changes_nothing<C: Comparator>(
    input: Seq<db_iterator::Pair>,
    smallest_snapshot: u64,
    deeper: DeeperFiles<C>,
    contents: Map<Seq<u8>, Seq<u8>>,
    sequence: nat,
    user_key: Seq<u8>,
    value: Seq<u8>,
)
    requires
        db_iterator::sorted(InternalKeyComparator::over(deeper.comparator), input),
        seen::contents_sound(deeper.comparator, db_iterator::map_of(input)),
        seen::contents_sound(deeper.comparator, contents),
        keys_are_plain(deeper.comparator, input),
        lies_in_bounds(deeper, contents),
        smallest_snapshot <= crate::format::MAX_SEQUENCE_NUMBER,
        smallest_snapshot <= sequence,
        deeper.comparator.admits(user_key),
    ensures
        ({
            let user = deeper.comparator;
            let kept = kept_from(input, 0, smallest_snapshot, deeper);
            let older = seen::seen_at(user, contents, sequence, user_key);
            seen::first_seen(
                seen::seen_at(user, db_iterator::map_of(input), sequence, user_key),
                older,
            ) == Seen::Value(value) <==> seen::first_seen(
                seen::seen_at(user, db_iterator::map_of(kept), sequence, user_key),
                older,
            ) == Seen::Value(value)
        }),
{
    let user = deeper.comparator;
    let kept = kept_from(input, 0, smallest_snapshot, deeper);
    let before = seen::seen_at(user, db_iterator::map_of(input), sequence, user_key);
    let after = seen::seen_at(user, db_iterator::map_of(kept), sequence, user_key);
    law_compaction_keeps_what_is_seen(
        user,
        input,
        smallest_snapshot,
        deeper,
        sequence,
        user_key,
    );
    if after != before {
        let held = choose|held: Seq<u8>|
            user_view::same(user, held, user_key) && #[trigger] deeper.is_base(held);
        if exists|key: Seq<u8>| seen::answers(user, contents, sequence, user_key, key) {
            let key = choose|key: Seq<u8>| seen::answers(user, contents, sequence, user_key, key);
            assert(user_view::visible(contents, sequence, key));
            assert(contents.contains_key(key));
            let i = choose|i: int|
                0 <= i < deeper.files@.len() && has_bounds(
                    deeper.comparator,
                    #[trigger] deeper.files@[i],
                ) && !deeper.comparator.less(
                    crate::format::user_part(key),
                    crate::format::user_part(deeper.files@[i].smallest@),
                ) && !deeper.comparator.less(
                    crate::format::user_part(deeper.files@[i].largest@),
                    crate::format::user_part(key),
                );
            let file = deeper.files@[i];
            let own = crate::format::user_part(key);
            assert(own == user_view::user_of(key));
            assert(user_view::same(user, own, user_key));
            user_view::lemma_same_less(user, own, user_key, held);
            user_view::lemma_same_less(user, held, user_key, own);
            user_view::lemma_same_less(user, held, own, crate::format::user_part(file.smallest@));
            user_view::lemma_same_less(user, held, own, crate::format::user_part(file.largest@));
            assert(!covers(user, file.model(), held));
        }
    }
}

/// A compaction drops what no reader can see any more: of the entries of one user key that
/// are old enough for all snapshots only the newest can stay, and it does not stay if it is a
/// deletion of a key that no deeper level has.
pub proof fn law_compaction_drops_what_is_hidden<C: Comparator, L: DeeperLevels>(
    user: C,
    input: Seq<db_iterator::Pair>,
    smallest_snapshot: u64,
    levels: L,
    newer: int,
    older: int,
)
    requires
        db_iterator::sorted(InternalKeyComparator::over(user), input),
        keys_are_plain(user, input),
        0 <= newer < input.len(),
        0 <= older < input.len(),
        crate::format::tag_part(input[newer].0) / 256 <= smallest_snapshot,
    ensures
        ({
            let kept = kept_from(input, 0, smallest_snapshot, levels);
            &&& newer < older && crate::format::user_part(input[newer].0)
                == crate::format::user_part(input[older].0) ==> !kept.contains(input[older])
            &&& crate::format::tag_part(input[newer].0) % 256 == 0 && levels.is_base(
                crate::format::user_part(input[newer].0),
            ) ==> !kept.contains(input[newer])
        }),
{
    let order = InternalKeyComparator::over(user);
    let kept = kept_from(input, 0, smallest_snapshot, levels);
    if newer < older && crate::format::user_part(input[newer].0) == crate::format::user_part(
        input[older].0,
    ) {
        lemma_together(user, input, newer, older);
        let first = crate::format::tag_part(input[newer].0);
        let last = crate::format::tag_part(input[older - 1].0);
        assert(last / 256 <= first / 256) by (nonlinear_arith)
            requires
                last <= first,
        ;
        if kept.contains(input[older]) {
            let k = choose|k: int| 0 <= k < kept.len() && kept[k] == input[older];
            let index = lemma_kept_within(input, 0, smallest_snapshot, levels, k);
            lemma_place_is_unique(order, input, index, older);
        }
    }
    if kept.contains(input[newer]) {
        let k = choose|k: int| 0 <= k < kept.len() && kept[k] == input[newer];
        let index = lemma_kept_within(input, 0, smallest_snapshot, levels, k);
        lemma_place_is_unique(order, input, index, newer);
    }
}

/// Sorted entries differ.
proof fn lemma_place_is_unique<C: Comparator>(
    order: C,
    input: Seq<db_iterator::Pair>,
    a: int,
    b: int,
)
    requires
        db_iterator::sorted(order, input),
        0 <= a < input.len(),
        0 <= b < input.len(),
        input[a] == input[b],
    ensures
        a == b,
{
    order.less_irreflexive(input[a].0);
    if a < b {
        assert(order.less(input[a].0, input[b].0));
    } else if b < a {
        assert(order.less(input[b].0, input[a].0));
    }
}

// ---------------------------------------------------------------------------
// Edits
// ---------------------------------------------------------------------------

/// The sum of the sizes of some tables.
pub open spec fn size_sum(files: Seq<FileMetaData>) -> nat
    decreases files.len(),
{
    if files.len() == 0 {
        0
    } else {
        size_sum(files.drop_last()) + files.last().file_size as nat
    }
}

/// The sum of the sizes of some tables, or the greatest number there is.
pub fn total_size(files: &Vec<FileMetaData>) -> (total: i64)
    ensures
        total == if size_sum(files@) <= i64::MAX {
            size_sum(files@) as int
        } else {
            i64::MAX as int
        },
{
    let limit: u64 = 0x7fff_ffff_ffff_ffff;
    let mut total: u64 = 0;
    let mut index: usize = 0;
    assert(files@.take(0) =~= Seq::<FileMetaData>::empty());
    while index < files.len()
        invariant
            index <= files@.len(),
            limit == i64::MAX,
            total == if size_sum(files@.take(index as int)) <= limit {
                size_sum(files@.take(index as int)) as int
            } else {
                limit as int
            },
        decreases files@.len() - index,
    {
        proof {
            let more = files@.take(index + 1);
            assert(more.drop_last() =~= files@.take(index as int));
            assert(more.last() == files@[index as int]);
        }
        let size: u64 = files[index].file_size;
        total = if size <= limit - total {
            total + size
        } else {
            limit
        };
        index = index + 1;
    }
    assert(files@.take(index as int) =~= files@);
    total as i64
}

/// The edit that moves a table to the next level as it is.
pub fn trivial_move_edit(level: u32, file: &FileMetaData) -> (edit: VersionEdit)
    requires
        level < u32::MAX,
    ensures
        edit.deleted_files@ == seq![DeletedFile { level, number: file.number }],
        edit.new_files@.len() == 1,
        edit.new_files@[0].level == level + 1,
        edit.new_files@[0].meta.model() == file.model(),
        edit.compact_pointers@.len() == 0,
        edit.log_number is None,
        edit.comparator is None,
{
    let mut deleted: Vec<DeletedFile> = Vec::new();
    deleted.push(DeletedFile { level, number: file.number });
    let mut added: Vec<NewFile> = Vec::new();
    added.push(NewFile { level: level + 1, meta: file.clone() });
    let edit = VersionEdit {
        comparator: None,
        log_number: None,
        compact_pointers: Vec::new(),
        deleted_files: deleted,
        new_files: added,
    };
    assert(edit.deleted_files@ =~= seq![DeletedFile { level, number: file.number }]);
    edit
}

/// The tables of a level as they are deleted.
pub open spec fn deletions(level: u32, files: Seq<FileMetaData>) -> Seq<DeletedFile> {
    Seq::new(files.len(), |i: int| DeletedFile { level, number: files[i].number })
}

fn push_deletions(deleted: &mut Vec<DeletedFile>, level: u32, files: &Vec<FileMetaData>)
    ensures
        final(deleted)@ == old(deleted)@ + deletions(level, files@),
{
    let ghost before = deleted@;
    let mut index: usize = 0;
    assert(deleted@ =~= before + deletions(level, files@).take(0));
    while index < files.len()
        invariant
            index <= files@.len(),
            deleted@ == before + deletions(level, files@).take(index as int),
        decreases files@.len() - index,
    {
        deleted.push(DeletedFile { level, number: files[index].number });
        proof {
            let all = deletions(level, files@);
            assert(all.take(index + 1) =~= all.take(index as int).push(all[index as int]));
            assert(deleted@ =~= before + all.take(index + 1));
        }
        index = index + 1;
    }
    assert(deletions(level, files@).take(index as int) =~= deletions(level, files@));
}

/// The edit of a compaction: the tables that were read are gone from their levels, and
/// those that were written are in the next.
pub fn compaction_edit(
    level: u32,
    inputs: &Vec<FileMetaData>,
    next_inputs: &Vec<FileMetaData>,
    outputs: Vec<FileMetaData>,
    compact_pointers: Vec<CompactPointer>,
) -> (edit: VersionEdit)
    requires
        level < u32::MAX,
    ensures
        edit.deleted_files@ == deletions(level, inputs@) + deletions(
            (level + 1) as u32,
            next_inputs@,
        ),
        edit.deleted_files@.len() == inputs@.len() + next_inputs@.len(),
        forall|i: int|
            0 <= i < inputs@.len() ==> edit.deleted_files@[i] == (DeletedFile {
                level,
                number: (#[trigger] inputs@[i]).number,
            }),
        forall|i: int|
            0 <= i < next_inputs@.len() ==> edit.deleted_files@[inputs@.len() + i] == (DeletedFile {
                level: (level + 1) as u32,
                number: (#[trigger] next_inputs@[i]).number,
            }),
        edit.new_files@.len() == outputs@.len(),
        forall|i: int|
            0 <= i < outputs@.len() ==> (#[trigger] edit.new_files@[i]).level == level + 1
                && edit.new_files@[i].meta.model() == outputs@[i].model(),
        edit.compact_pointers == compact_pointers,
        edit.log_number is None,
        edit.comparator is None,
{
    let mut deleted: Vec<DeletedFile> = Vec::new();
    push_deletions(&mut deleted, level, inputs);
    push_deletions(&mut deleted, level + 1, next_inputs);
    let mut added: Vec<NewFile> = Vec::new();
    let mut index: usize = 0;
    while index < outputs.len()
        invariant
            index <= outputs@.len(),
            level < u32::MAX,
            added@.len() == index,
            forall|i: int|
                0 <= i < index ==> (#[trigger] added@[i]).level == level + 1
                    && added@[i].meta.model() == outputs@[i].model(),
        decreases outputs@.len() - index,
    {
        added.push(NewFile { level: level + 1, meta: outputs[index].clone() });
        index = index + 1;
    }
    let edit = VersionEdit {
        comparator: None,
        log_number: None,
        compact_pointers,
        deleted_files: deleted,
        new_files: added,
    };
    assert(edit.deleted_files@ =~= deletions(level, inputs@) + deletions(
        (level + 1) as u32,
        next_inputs@,
    ));
    edit
}

/// The edit of a flush: a level gets a table, and older logs are no longer needed.
pub fn flush_edit(level: u32, meta: FileMetaData, log_number: u64) -> (edit: VersionEdit)
    ensures
        edit.deleted_files@.len() == 0,
        edit.new_files@.len() == 1,
        edit.new_files@[0].level == level,
        edit.new_files@[0].meta == meta,
        edit.compact_pointers@.len() == 0,
        edit.log_number == Some(log_number),
        edit.comparator is None,
{
    let mut added: Vec<NewFile> = Vec::new();
    added.push(NewFile { level, meta });
    VersionEdit {
        comparator: None,
        log_number: Some(log_number),
        compact_pointers: Vec::new(),
        deleted_files: Vec::new(),
        new_files: added,
    }
}

/// The numbers of the tables that were read.
pub fn input_numbers(inputs: &Vec<FileMetaData>, next_inputs: &Vec<FileMetaData>) -> (numbers: Vec<
    u64,
>)
    ensures
        numbers@ == file_numbers(inputs@) + file_numbers(next_inputs@),
        numbers@.len() == inputs@.len() + next_inputs@.len(),
        forall|i: int|
            0 <= i < inputs@.len() ==> numbers@[i] == (#[trigger] inputs@[i]).number,
        forall|i: int|
            0 <= i < next_inputs@.len() ==> numbers@[inputs@.len() + i] == (
            #[trigger] next_inputs@[i]).number,
{
    let mut numbers: Vec<u64> = Vec::new();
    push_numbers(&mut numbers, inputs);
    push_numbers(&mut numbers, next_inputs);
    assert(numbers@ =~= file_numbers(inputs@) + file_numbers(next_inputs@));
    numbers
}

/// The numbers of some tables.
pub open spec fn file_numbers(files: Seq<FileMetaData>) -> Seq<u64> {
    Seq::new(files.len(), |i: int| files[i].number)
}

fn push_numbers(numbers: &mut Vec<u64>, files: &Vec<FileMetaData>)
    ensures
        final(numbers)@ == old(numbers)@ + file_numbers(files@),
{
    let ghost before = numbers@;
    let mut index: usize = 0;
    assert(numbers@ =~= before + file_numbers(files@).take(0));
    while index < files.len()
        invariant
            index <= files@.len(),
            numbers@ == before + file_numbers(files@).take(index as int),
        decreases files@.len() - index,
    {
        numbers.push(files[index].number);
        proof {
            let all = file_numbers(files@);
            assert(all.take(index + 1) =~= all.take(index as int).push(all[index as int]));
            assert(numbers@ =~= before + all.take(index + 1));
        }
        index = index + 1;
    }
    assert(file_numbers(files@).take(index as int) =~= file_numbers(files@));
}

/// A compaction adds nothing: what is kept was read, in the same order. What is newer than the
/// oldest snapshot is all kept.
pub proof fn law_compaction_adds_nothing<C: Comparator, L: DeeperLevels>(
    user: C,
    input: Seq<db_iterator::Pair>,
    smallest_snapshot: u64,
    levels: L,
)
    requires
        db_iterator::sorted(InternalKeyComparator::over(user), input),
        keys_are_plain(user, input),
        smallest_snapshot <= crate::format::MAX_SEQUENCE_NUMBER,
    ensures
        ({
            let kept = kept_from(input, 0, smallest_snapshot, levels);
            &&& forall|k: int| 0 <= k < kept.len() ==> input.contains(#[trigger] kept[k])
            &&& db_iterator::sorted(InternalKeyComparator::over(user), kept)
            &&& forall|i: int|
                0 <= i < input.len() && crate::format::tag_part((#[trigger] input[i]).0) / 256
                    > smallest_snapshot ==> kept.contains(input[i])
        }),
{
    let order = InternalKeyComparator::over(user);
    let kept = kept_from(input, 0, smallest_snapshot, levels);
    lemma_kept_sorted(order, input, 0, smallest_snapshot, levels);
    assert forall|k: int| 0 <= k < kept.len() implies input.contains(#[trigger] kept[k]) by {
        let index = lemma_kept_within(input, 0, smallest_snapshot, levels, k);
        assert(input[index] == kept[k]);
    }
    assert forall|i: int|
        0 <= i < input.len() && crate::format::tag_part((#[trigger] input[i]).0) / 256
            > smallest_snapshot implies kept.contains(input[i]) by {
        if i > 0 && crate::format::user_part(input[i - 1].0) == crate::format::user_part(
            input[i].0,
        ) {
            lemma_together(user, input, i - 1, i);
            let (before, after) = (
                crate::format::tag_part(input[i - 1].0),
                crate::format::tag_part(input[i].0),
            );
            assert(after / 256 <= before / 256) by (nonlinear_arith)
                requires
                    after <= before,
            ;
        }
        assert(!is_dropped(input, i, smallest_snapshot, levels));
        let k = lemma_not_dropped(input, 0, smallest_snapshot, levels, i);
        assert(kept[k] == input[i]);
    }
}

} // verus!
