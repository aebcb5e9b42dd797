//! What a lookup sees in a table.

use vstd::prelude::*;

use crate::comparator::Comparator;
use crate::db_impl::enter;
use crate::db_impl::table_output;
use crate::db_iter::db_iterator;
use crate::db_iter::seen;
use crate::db_iter::seen::Seen;
use crate::db_iter::user_view;
use crate::env::RandomAccessFile;
use crate::filter::FilterPolicy;
use crate::format::InternalKeyComparator;
use crate::memtable::SharedMemTable;
use crate::status;
use crate::table::draft;
use crate::table::draft::Draft;
use crate::table::draft::Recipe;
use crate::table::laws;
use crate::table::reader;
use crate::table::Compressor;
use crate::table::Table;
use crate::version_set::LookupResult;

verus! {

/// Whether a lookup tells what is seen.
pub open spec fn tells(seen: Seen, read: status::Result<LookupResult>) -> bool {
    match seen {
        Seen::Nothing => read matches Ok(LookupResult::NotFound),
        Seen::Deleted => read matches Ok(LookupResult::Deleted),
        Seen::Value(value) => read matches Ok(LookupResult::Found(bytes)) && bytes@ == value,
    }
}

/// The internal key from which on a lookup at a sequence number looks.
pub open spec fn lookup_target(user_key: Seq<u8>, sequence: nat) -> Seq<u8> {
    crate::format::internal_key_bytes(user_key, sequence, crate::format::VALUE_TYPE_FOR_SEEK)
}

/// Whether keys that count as the same as a user key are the same.
pub open spec fn is_plain_among<C: Comparator>(
    user: C,
    entries: Seq<db_iterator::Pair>,
    user_key: Seq<u8>,
) -> bool {
    forall|i: int|
        0 <= i < entries.len() && user_view::same(
            user,
            user_view::user_of(#[trigger] entries[i].0),
            user_key,
        ) ==> user_view::user_of(entries[i].0) == user_key
}

/// An entry of a key lies before the target of a lookup if and only if it is too new to
/// be seen.
proof fn lemma_beyond_target<C: Comparator>(
    user: C,
    entries: Seq<db_iterator::Pair>,
    sequence: nat,
    user_key: Seq<u8>,
    i: int,
)
    requires
        db_iterator::sorted(InternalKeyComparator::over(user), entries),
        seen::contents_sound(user, db_iterator::map_of(entries)),
        user.admits(user_key),
        sequence <= crate::format::MAX_SEQUENCE_NUMBER,
        0 <= i < entries.len(),
        user_view::same(user, user_view::user_of(entries[i].0), user_key),
    ensures
        user_view::visible(db_iterator::map_of(entries), sequence, entries[i].0)
            == !InternalKeyComparator::over(user).less(
            entries[i].0,
            lookup_target(user_key, sequence),
        ),
{
    let order = InternalKeyComparator::over(user);
    let contents = db_iterator::map_of(entries);
    let key = entries[i].0;
    let tag = crate::format::tag_part(key);
    InternalKeyComparator::<C>::lemma_over(user);
    db_iterator::lemma_map_of(order, entries, i);
    assert(crate::format::parsed(key) is Some);
    lemma_target(user_key, sequence);
    assert(tag <= sequence * 256 + 1 <==> tag / 256 <= sequence) by (nonlinear_arith)
        requires
            tag % 256 <= 1,
    ;
}

/// The parts of the target of a lookup.
proof fn lemma_target(user_key: Seq<u8>, sequence: nat)
    requires
        sequence <= crate::format::MAX_SEQUENCE_NUMBER,
    ensures
        crate::format::user_part(lookup_target(user_key, sequence)) == user_key,
        crate::format::tag_part(lookup_target(user_key, sequence)) == sequence * 256 + 1,
        lookup_target(user_key, sequence).len() == user_key.len() + 8,
{
    crate::format::lemma_internal_key_parts(
        user_key,
        crate::format::packed(sequence, crate::format::VALUE_TYPE_FOR_SEEK),
    );
}

/// The first entry from the target of a lookup on says what is seen.
proof fn lemma_first_says<C: Comparator>(
    user: C,
    entries: Seq<db_iterator::Pair>,
    sequence: nat,
    user_key: Seq<u8>,
    read: status::Result<LookupResult>,
)
    requires
        db_iterator::sorted(InternalKeyComparator::over(user), entries),
        seen::contents_sound(user, db_iterator::map_of(entries)),
        user.admits(user_key),
        sequence <= crate::format::MAX_SEQUENCE_NUMBER,
        is_plain_among(user, entries, user_key),
        reader::internal_is(
            db_iterator::pair_at(
                entries,
                db_iterator::first_from(
                    InternalKeyComparator::over(user),
                    entries,
                    lookup_target(user_key, sequence),
                ),
            ),
            lookup_target(user_key, sequence),
            read,
        ),
    ensures
        tells(seen::seen_at(user, db_iterator::map_of(entries), sequence, user_key), read),
{
    let order = InternalKeyComparator::over(user);
    let contents = db_iterator::map_of(entries);
    let target = lookup_target(user_key, sequence);
    let place = db_iterator::first_from(order, entries, target);
    InternalKeyComparator::<C>::lemma_over(user);
    lemma_target(user_key, sequence);
    db_iterator::lemma_first_from(order, entries, target, 0);
    user.less_irreflexive(user_key);
    if place < entries.len() && user_view::user_of(entries[place].0) == user_key {
        let key = entries[place].0;
        db_iterator::lemma_map_of(order, entries, place);
        lemma_beyond_target(user, entries, sequence, user_key, place);
        assert forall|other: Seq<u8>| #[trigger]
            user_view::visible(contents, sequence, other) && user_view::same(
                user,
                user_view::user_of(other),
                user_view::user_of(key),
            ) && other != key implies order.less(key, other) by {
            let j = choose|j: int| 0 <= j < entries.len() && #[trigger] entries[j].0 == other;
            lemma_beyond_target(user, entries, sequence, user_key, j);
            assert(order.less(entries[place].0, entries[j].0));
        }
        assert(seen::answers(user, contents, sequence, user_key, key));
        seen::lemma_answer(user, contents, sequence, user_key, key);
        assert(crate::format::parsed(key) is Some);
    } else {
        if exists|key: Seq<u8>| seen::answers(user, contents, sequence, user_key, key) {
            let key = choose|key: Seq<u8>| seen::answers(user, contents, sequence, user_key, key);
            assert(user_view::visible(contents, sequence, key));
            let j = choose|j: int| 0 <= j < entries.len() && #[trigger] entries[j].0 == key;
            lemma_beyond_target(user, entries, sequence, user_key, j);
            assert(user_view::user_of(entries[j].0) == user_key);
            assert(j >= place);
            assert(order.less(entries[place].0, entries[j].0));
            assert(user_view::same(user, user_view::user_of(entries[place].0), user_key));
        }
        if place < entries.len() {
            db_iterator::lemma_map_of(order, entries, place);
            assert(crate::format::parsed(entries[place].0) is Some);
        }
    }
}

/// A lookup in a finished table tells what is seen at the sequence number among all
/// entries that were added. Keys that count as the same as the one looked for have to be
/// the same, as tables compare their bytes.
pub proof fn law_table_tells_what_is_seen<
    C: Comparator,
    F: RandomAccessFile,
    P: FilterPolicy,
    Z: Compressor,
>(
    recipe: Recipe<InternalKeyComparator<C>, P, Z>,
    draft: Draft,
    table: Table<InternalKeyComparator<C>, F, P, Z>,
    user_key: Seq<u8>,
    sequence: nat,
    verify: bool,
    read: status::Result<LookupResult>,
)
    requires
        draft::finished_well(recipe, draft),
        laws::fits(recipe, draft),
        table.bytes() == recipe.finished(draft).image,
        reader::opens_as(
            reader::opened(table.bytes(), table.bytes().len() as int, recipe.compressor),
            recipe.comparator,
            recipe.policy,
            recipe.compressor,
            Ok::<Table<InternalKeyComparator<C>, F, P, Z>, status::Status>(table),
        ),
        seen::contents_sound(
            recipe.comparator.user_order(),
            db_iterator::map_of(draft.entries()),
        ),
        recipe.comparator.user_order().admits(user_key),
        sequence <= crate::format::MAX_SEQUENCE_NUMBER,
        is_plain_among(recipe.comparator.user_order(), draft.entries(), user_key),
        reader::lookup_is(
            table.block_for(
                lookup_target(user_key, sequence),
                lookup_target(user_key, sequence),
                verify,
            ),
            recipe.comparator,
            lookup_target(user_key, sequence),
            read,
        ),
    ensures
        tells(
            seen::seen_at(
                recipe.comparator.user_order(),
                db_iterator::map_of(draft.entries()),
                sequence,
                user_key,
            ),
            read,
        ),
{
    let user = recipe.comparator.user_order();
    recipe.comparator.lemma_is_over();
    lemma_target(user_key, sequence);
    laws::law_finished_opens(recipe, draft);
    laws::lemma_joined_sorted(
        recipe.comparator,
        recipe.finished(draft).index,
        recipe.flushed(draft).blocks,
    );
    laws::law_internal_get_finds(
        recipe,
        draft,
        table,
        lookup_target(user_key, sequence),
        verify,
        read,
    );
    lemma_first_says(user, draft.entries(), sequence, user_key, read);
}

/// The draft of a table of some entries has these entries.
pub proof fn lemma_drafted_entries<C: Comparator, P: FilterPolicy, Z: Compressor>(
    recipe: Recipe<C, P, Z>,
    entries: Seq<db_iterator::Pair>,
)
    ensures
        table_output::drafted(recipe, Draft::blank(), entries).entries() == entries,
    decreases entries.len(),
{
    if entries.len() == 0 {
        assert(Draft::blank().entries() =~= entries);
    } else {
        let front = entries.drop_last();
        let last = entries.last();
        lemma_drafted_entries(recipe, front);
        let before = table_output::drafted(recipe, Draft::blank(), front);
        let more = recipe.with_entry(before, last.0, last.1);
        assert(more.entries() =~= before.entries().push(last));
        let closed = recipe.flushed(more);
        assert(closed.blocks.drop_last() =~= more.blocks);
        assert(closed.entries() =~= more.entries());
        assert(entries =~= front.push(last));
    }
}

/// What a lookup saw in a memtable it sees in the table that the memtable was written
/// to.
pub proof fn law_flush_keeps_what_is_seen<
    C: Comparator,
    F: RandomAccessFile,
    P: FilterPolicy,
    Z: Compressor,
>(
    mem: SharedMemTable<C>,
    recipe: Recipe<InternalKeyComparator<C>, P, Z>,
    table: Table<InternalKeyComparator<C>, F, P, Z>,
    user_key: Seq<u8>,
    sequence: nat,
    verify: bool,
    read: status::Result<LookupResult>,
)
    requires
        enter::mem_sound(mem),
        recipe.comparator == mem.table().order(),
        ({
            let draft = table_output::drafted(recipe, Draft::blank(), mem.table().entries());
            &&& draft::finished_well(recipe, draft)
            &&& laws::fits(recipe, draft)
        }),
        table.bytes() == table_output::table_image(recipe, mem.table().entries()),
        reader::opens_as(
            reader::opened(table.bytes(), table.bytes().len() as int, recipe.compressor),
            recipe.comparator,
            recipe.policy,
            recipe.compressor,
            Ok::<Table<InternalKeyComparator<C>, F, P, Z>, status::Status>(table),
        ),
        enter::mem_user(mem).admits(user_key),
        sequence <= crate::format::MAX_SEQUENCE_NUMBER,
        is_plain_among(enter::mem_user(mem), mem.table().entries(), user_key),
        reader::lookup_is(
            table.block_for(
                lookup_target(user_key, sequence),
                lookup_target(user_key, sequence),
                verify,
            ),
            recipe.comparator,
            lookup_target(user_key, sequence),
            read,
        ),
    ensures
        tells(
            seen::seen_at(enter::mem_user(mem), enter::mem_contents(mem), sequence, user_key),
            read,
        ),
{
    lemma_drafted_entries(recipe, mem.table().entries());
    law_table_tells_what_is_seen(
        recipe,
        table_output::drafted(recipe, Draft::blank(), mem.table().entries()),
        table,
        user_key,
        sequence,
        verify,
        read,
    );
}

} // verus!
