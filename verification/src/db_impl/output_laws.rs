//! What a compaction reads, and what it writes.

use vstd::prelude::*;

use std::sync::Arc;

use crate::comparator::Comparator;
use crate::db_impl::compaction;
use crate::db_impl::compaction::DeeperFiles;
use crate::db_impl::compaction::DeeperLevels;
use crate::db_impl::entry_sort;
use crate::db_impl::outputs;
use crate::db_impl::outputs::OutputSettings;
use crate::db_impl::table_input;
use crate::db_impl::table_output;
use crate::db_iter::db_iterator;
use crate::db_iter::seen;
use crate::db_iter::seen::Seen;
use crate::env::Env;
use crate::env::RandomAccessFile;
use crate::filename;
use crate::filter::FilterPolicy;
use crate::format::InternalKeyComparator;
use crate::status;
use crate::table::draft::Draft;
use crate::table::draft::Recipe;
use crate::table::table_iterator;
use crate::table::Compressor;
use crate::version_set::FileMetaData;

verus! {

proof fn lemma_flatten_last<A>(parts: Seq<Seq<A>>)
    requires
        parts.len() > 0,
    ensures
        parts.flatten() == parts.drop_last().flatten() + parts.last(),
{
    assert(parts.drop_last().push(parts.last()) =~= parts);
    parts.drop_last().lemma_flatten_push(parts.last());
}

/// A table holds the entries that were added, in order, in blocks. A block is closed with the
/// entry with which it reaches the block size, and with no earlier one.
pub proof fn law_blocks_reach_their_size<C: Comparator, P: FilterPolicy, Z: Compressor>(
    recipe: Recipe<C, P, Z>,
    entries: Seq<db_iterator::Pair>,
)
    ensures
        ({
            let draft = table_output::drafted(recipe, Draft::blank(), entries);
            &&& draft.blocks.flatten() + draft.open == entries
            &&& forall|i: int|
                0 <= i < draft.blocks.len() ==> {
                    let block = #[trigger] draft.blocks[i];
                    &&& block.len() > 0
                    &&& recipe.block_image(block).len() >= recipe.block_size
                    &&& block.len() > 1 ==> recipe.block_image(block.drop_last()).len()
                        < recipe.block_size
                }
            &&& draft.open.len() > 0 ==> recipe.block_image(draft.open).len() < recipe.block_size
        }),
    decreases entries.len(),
{
    let draft = table_output::drafted(recipe, Draft::blank(), entries);
    if entries.len() > 0 {
        let front = entries.drop_last();
        law_blocks_reach_their_size(recipe, front);
        let before = table_output::drafted(recipe, Draft::blank(), front);
        let block = before.open.push(entries.last());
        assert(block.drop_last() =~= before.open);
        assert(front.push(entries.last()) =~= entries);
        if recipe.block_image(block).len() >= recipe.block_size {
            assert(draft.blocks == before.blocks.push(block));
            lemma_flatten_last(draft.blocks);
            assert(draft.blocks.drop_last() =~= before.blocks);
            assert(draft.blocks.flatten() + draft.open =~= entries);
            assert forall|i: int| 0 <= i < draft.blocks.len() implies {
                let block = #[trigger] draft.blocks[i];
                &&& block.len() > 0
                &&& recipe.block_image(block).len() >= recipe.block_size
                &&& block.len() > 1 ==> recipe.block_image(block.drop_last()).len()
                    < recipe.block_size
            } by {
                if i < before.blocks.len() {
                    assert(draft.blocks[i] == before.blocks[i]);
                }
            }
        } else {
            assert(draft.blocks == before.blocks);
            assert(draft.blocks.flatten() + draft.open =~= entries);
        }
    } else {
        assert(draft.blocks.flatten() + draft.open =~= entries);
    }
}

proof fn lemma_names_apart(dbname: Seq<char>, a: u64, b: u64)
    requires
        a != b,
    ensures
        filename::numbered(dbname, a, "ldb"@) != filename::numbered(dbname, b, "ldb"@),
{
    filename::law_numbered_names(dbname, a);
    filename::law_numbered_names(dbname, b);
}

proof fn lemma_files_with<C: Comparator, P: FilterPolicy, Z: Compressor>(
    files: Map<Seq<char>, Seq<u8>>,
    dbname: Seq<char>,
    recipe: Recipe<C, P, Z>,
    numbers: Seq<u64>,
    pieces: Seq<Seq<db_iterator::Pair>>,
)
    requires
        numbers.len() == pieces.len(),
        numbers.no_duplicates(),
    ensures
        ({
            let after = outputs::files_with(files, dbname, recipe, numbers, pieces);
            &&& forall|i: int|
                0 <= i < numbers.len() ==> after.contains_key(
                    filename::numbered(dbname, #[trigger] numbers[i], "ldb"@),
                ) && after[filename::numbered(dbname, numbers[i], "ldb"@)]
                    == table_output::table_image(recipe, pieces[i])
            &&& forall|path: Seq<char>|
                (forall|i: int|
                    0 <= i < numbers.len() ==> path != filename::numbered(
                        dbname,
                        #[trigger] numbers[i],
                        "ldb"@,
                    )) ==> (#[trigger] after.contains_key(path) <==> files.contains_key(path)) && (
                files.contains_key(path) ==> after[path] == files[path])
        }),
    decreases pieces.len(),
{
    if pieces.len() > 0 {
        let (some, front) = (numbers.drop_last(), pieces.drop_last());
        let last = numbers.len() - 1;
        lemma_files_with(files, dbname, recipe, some, front);
        let earlier = outputs::files_with(files, dbname, recipe, some, front);
        let after = outputs::files_with(files, dbname, recipe, numbers, pieces);
        assert forall|i: int| 0 <= i < numbers.len() implies after.contains_key(
            filename::numbered(dbname, #[trigger] numbers[i], "ldb"@),
        ) && after[filename::numbered(dbname, numbers[i], "ldb"@)] == table_output::table_image(
            recipe,
            pieces[i],
        ) by {
            if i < last {
                assert(some[i] == numbers[i]);
                assert(front[i] == pieces[i]);
                lemma_names_apart(dbname, numbers[i], numbers[last]);
            }
        }
        assert forall|path: Seq<char>|
            (forall|i: int|
                0 <= i < numbers.len() ==> path != filename::numbered(
                    dbname,
                    #[trigger] numbers[i],
                    "ldb"@,
                )) implies (#[trigger] after.contains_key(path) <==> files.contains_key(path)) && (
        files.contains_key(path) ==> after[path] == files[path]) by {
            assert forall|i: int| 0 <= i < some.len() implies path != filename::numbered(
                dbname,
                #[trigger] some[i],
                "ldb"@,
            ) by {
                assert(some[i] == numbers[i]);
            }
            assert(path != filename::numbered(dbname, numbers[last], "ldb"@));
            assert(earlier.contains_key(path) <==> files.contains_key(path));
        }
    }
}

proof fn lemma_pieces<C: Comparator, P: FilterPolicy, Z: Compressor>(
    recipe: Recipe<C, P, Z>,
    entries: Seq<db_iterator::Pair>,
    max_file_size: u64,
    pieces: Seq<Seq<db_iterator::Pair>>,
    taken: int,
)
    requires
        outputs::cut_until(recipe, entries, max_file_size, pieces, taken),
        taken <= entries.len(),
    ensures
        pieces.flatten() == entries.take(taken),
        forall|i: int|
            0 <= i < pieces.len() ==> (#[trigger] pieces[i]).len() > 0 && forall|fewer: int|
                0 < fewer < pieces[i].len() ==> (#[trigger] table_output::drafted(
                    recipe,
                    Draft::blank(),
                    pieces[i].take(fewer),
                )).written.len() < max_file_size,
        forall|i: int|
            0 <= i < pieces.len() && (i < pieces.len() - 1 || taken < entries.len())
                ==> table_output::drafted(
                recipe,
                Draft::blank(),
                #[trigger] pieces[i],
            ).written.len() >= max_file_size,
    decreases pieces.len(),
{
    if pieces.len() == 0 {
        assert(pieces.flatten() =~= entries.take(0));
    } else {
        let last = pieces.len() - 1;
        let start = taken - pieces.last().len();
        let front = pieces.drop_last();
        lemma_pieces(recipe, entries, max_file_size, front, start);
        lemma_flatten_last(pieces);
        assert(entries.take(start) + entries.subrange(start, taken) =~= entries.take(taken));
        let rest = entries.skip(start);
        assert(rest.take(taken - start) =~= pieces.last());
        assert forall|i: int| 0 <= i < pieces.len() implies (#[trigger] pieces[i]).len() > 0
            && forall|fewer: int|
            0 < fewer < pieces[i].len() ==> (#[trigger] table_output::drafted(
                recipe,
                Draft::blank(),
                pieces[i].take(fewer),
            )).written.len() < max_file_size by {
            if i < last {
                assert(front[i] == pieces[i]);
            } else {
                assert forall|fewer: int| 0 < fewer < pieces[i].len() implies (
                #[trigger] table_output::drafted(
                    recipe,
                    Draft::blank(),
                    pieces[i].take(fewer),
                )).written.len() < max_file_size by {
                    assert(rest.take(fewer) =~= pieces[i].take(fewer));
                }
            }
        }
        assert forall|i: int|
            0 <= i < pieces.len() && (i < pieces.len() - 1 || taken < entries.len())
            implies table_output::drafted(
            recipe,
            Draft::blank(),
            #[trigger] pieces[i],
        ).written.len() >= max_file_size by {
            if i < last {
                assert(front[i] == pieces[i]);
            }
        }
    }
}

/// The tables that are written hold all entries, in order. Each has the image of its entries
/// under its number, and what is told of it fits: its size, its first and its last key. No
/// other file is changed. A table is closed with the entry with which it is large enough.
pub proof fn law_outputs_are_stored<C: Comparator, P: FilterPolicy, Z: Compressor>(
    recipe: Recipe<C, P, Z>,
    max_file_size: u64,
    dbname: Seq<char>,
    entries: Seq<db_iterator::Pair>,
    before: Map<Seq<char>, Seq<u8>>,
    after: Map<Seq<char>, Seq<u8>>,
    numbers: Seq<u64>,
    metas: Seq<FileMetaData>,
)
    requires
        outputs::written_as(
            recipe,
            max_file_size,
            dbname,
            entries,
            before,
            after,
            numbers,
            metas,
        ),
        numbers.no_duplicates(),
    ensures
        metas.len() == numbers.len(),
        exists|pieces: Seq<Seq<db_iterator::Pair>>|
            {
                &&& pieces.len() == metas.len()
                &&& #[trigger] pieces.flatten() == entries
                &&& forall|i: int|
                    0 <= i < metas.len() ==> {
                        let meta = #[trigger] metas[i];
                        let path = filename::numbered(dbname, numbers[i], "ldb"@);
                        &&& pieces[i].len() > 0
                        &&& after.contains_key(path)
                        &&& after[path] == table_output::table_image(recipe, pieces[i])
                        &&& meta.number == numbers[i]
                        &&& meta.file_size == after[path].len()
                        &&& meta.smallest@ == pieces[i][0].0
                        &&& meta.largest@ == pieces[i][pieces[i].len() - 1].0
                        &&& i < metas.len() - 1 ==> table_output::drafted(
                            recipe,
                            Draft::blank(),
                            pieces[i],
                        ).written.len() >= max_file_size
                        &&& pieces[i].len() > 1 ==> table_output::drafted(
                            recipe,
                            Draft::blank(),
                            pieces[i].drop_last(),
                        ).written.len() < max_file_size
                    }
            },
        forall|path: Seq<char>|
            (forall|i: int|
                0 <= i < numbers.len() ==> path != filename::numbered(
                    dbname,
                    #[trigger] numbers[i],
                    "ldb"@,
                )) ==> (#[trigger] after.contains_key(path) <==> before.contains_key(path)) && (
            before.contains_key(path) ==> after[path] == before[path]),
{
    let pieces = choose|pieces: Seq<Seq<db_iterator::Pair>>| #[trigger]
        outputs::outputs_are(
            recipe,
            max_file_size,
            dbname,
            entries,
            before,
            after,
            numbers,
            metas,
            pieces,
        );
    lemma_pieces(recipe, entries, max_file_size, pieces, entries.len() as int);
    lemma_files_with(before, dbname, recipe, numbers, pieces);
    assert(entries.take(entries.len() as int) =~= entries);
    assert forall|i: int| 0 <= i < metas.len() implies {
        let meta = #[trigger] metas[i];
        let path = filename::numbered(dbname, numbers[i], "ldb"@);
        &&& pieces[i].len() > 0
        &&& after.contains_key(path)
        &&& after[path] == table_output::table_image(recipe, pieces[i])
        &&& meta.number == numbers[i]
        &&& meta.file_size == after[path].len()
        &&& meta.smallest@ == pieces[i][0].0
        &&& meta.largest@ == pieces[i][pieces[i].len() - 1].0
        &&& i < metas.len() - 1 ==> table_output::drafted(
            recipe,
            Draft::blank(),
            pieces[i],
        ).written.len() >= max_file_size
        &&& pieces[i].len() > 1 ==> table_output::drafted(
            recipe,
            Draft::blank(),
            pieces[i].drop_last(),
        ).written.len() < max_file_size
    } by {
        let path = filename::numbered(dbname, numbers[i], "ldb"@);
        assert(pieces[i].take(pieces[i].len() - 1) =~= pieces[i].drop_last());
        if pieces[i].len() > 1 {
            assert(table_output::drafted(
                recipe,
                Draft::blank(),
                pieces[i].take(pieces[i].len() - 1),
            ).written.len() < max_file_size);
        }
    }
    assert(pieces.flatten() == entries);
}

/// The contents of some vectors.
pub open spec fn contents_of(parts: Seq<Vec<(Vec<u8>, Vec<u8>)>>) -> Seq<
    Seq<(Vec<u8>, Vec<u8>)>,
> {
    Seq::new(parts.len(), |i: int| parts[i]@)
}

proof fn lemma_joined(parts: Seq<Vec<(Vec<u8>, Vec<u8>)>>)
    ensures
        table_input::joined_parts(parts) == contents_of(parts).flatten(),
    decreases parts.len(),
{
    let all = contents_of(parts);
    if parts.len() > 0 {
        lemma_joined(parts.drop_last());
        lemma_flatten_last(all);
        assert(all.drop_last() =~= contents_of(parts.drop_last()));
        assert(all.last() == parts.last()@);
    } else {
        assert(table_input::joined_parts(parts) =~= all.flatten());
    }
}

/// Whether these are the entries of the tables of some numbers, each read from its file.
pub open spec fn are_entries_of<C: Comparator, F: RandomAccessFile, Z: Compressor>(
    comparator: C,
    compressor: Option<Arc<Z>>,
    files: Map<Seq<char>, Seq<u8>>,
    dbname: Seq<char>,
    numbers: Seq<u64>,
    verify: bool,
    parts: Seq<Vec<(Vec<u8>, Vec<u8>)>>,
) -> bool {
    &&& parts.len() == numbers.len()
    &&& forall|i: int|
        #![trigger parts[i]]
        #![trigger numbers[i]]
        0 <= i < parts.len() ==> files.contains_key(filename::numbered(dbname, numbers[i], "ldb"@))
            && table_input::entries_read::<C, F, Z>(
            comparator,
            compressor,
            files[filename::numbered(dbname, numbers[i], "ldb"@)],
            verify,
            Ok::<Vec<(Vec<u8>, Vec<u8>)>, status::Status>(parts[i]),
        )
}

/// What is read for a compaction are all entries of each table, one table after the other.
pub proof fn law_inputs_are_read_whole<C: Comparator, F: RandomAccessFile, Z: Compressor>(
    comparator: C,
    compressor: Option<Arc<Z>>,
    files: Map<Seq<char>, Seq<u8>>,
    dbname: Seq<char>,
    inputs: Seq<u64>,
    verify: bool,
    read: Vec<(Vec<u8>, Vec<u8>)>,
)
    requires
        outputs::was_read::<C, F, Z>(
            comparator,
            compressor,
            files,
            dbname,
            inputs,
            verify,
            Ok::<Vec<(Vec<u8>, Vec<u8>)>, status::Status>(read),
        ),
    ensures
        exists|parts: Seq<Vec<(Vec<u8>, Vec<u8>)>>| #[trigger]
            are_entries_of::<C, F, Z>(
                comparator,
                compressor,
                files,
                dbname,
                inputs,
                verify,
                parts,
            ) && read@ == contents_of(parts).flatten(),
{
    let all = Ok::<Vec<(Vec<u8>, Vec<u8>)>, status::Status>(read);
    let parts = choose|parts: Seq<Vec<(Vec<u8>, Vec<u8>)>>| #[trigger]
        table_input::read_is::<C, F, Z>(
            comparator,
            compressor,
            files,
            dbname,
            inputs,
            verify,
            parts,
            all,
        );
    lemma_joined(parts);
    assert forall|i: int|
        #![trigger parts[i]]
        #![trigger inputs[i]]
        0 <= i < parts.len() implies files.contains_key(
        filename::numbered(dbname, inputs[i], "ldb"@),
    ) && table_input::entries_read::<C, F, Z>(
        comparator,
        compressor,
        files[filename::numbered(dbname, inputs[i], "ldb"@)],
        verify,
        Ok::<Vec<(Vec<u8>, Vec<u8>)>, status::Status>(parts[i]),
    ) by {
        assert(table_input::part_read::<C, F, Z>(
            comparator,
            compressor,
            files,
            filename::numbered(dbname, inputs[i], "ldb"@),
            verify,
            parts[i],
        ));
    }
    assert(are_entries_of::<C, F, Z>(
        comparator,
        compressor,
        files,
        dbname,
        inputs,
        verify,
        parts,
    ));
}

/// Sorting entries leaves out none of them, adds none, and has no key behind one that it
/// comes before.
pub proof fn law_sorting_keeps_entries<C: Comparator>(
    comparator: C,
    read: Seq<db_iterator::Pair>,
    ranks: Seq<usize>,
)
    requires
        entry_sort::is_sorted_by(comparator, read, ranks),
        entry_sort::all_comparable(comparator, read),
        read.len() <= usize::MAX,
    ensures
        ({
            let sorted = outputs::arranged(read, ranks);
            &&& forall|i: int| 0 <= i < read.len() ==> sorted.contains(#[trigger] read[i])
            &&& forall|i: int| 0 <= i < sorted.len() ==> read.contains(#[trigger] sorted[i])
            &&& forall|i: int, j: int|
                0 <= i < j < sorted.len() ==> !comparator.less(
                    (#[trigger] sorted[j]).0,
                    (#[trigger] sorted[i]).0,
                )
        }),
{
    let sorted = outputs::arranged(read, ranks);
    assert forall|i: int| 0 <= i < read.len() implies sorted.contains(#[trigger] read[i]) by {
        assert(entry_sort::is_among(ranks, ranks.len() as int, i as usize));
        let k = choose|k: int|
            0 <= k < ranks.len() && k < ranks.len() && #[trigger] ranks[k] == i as usize;
        assert(sorted[k] == read[i]);
    }
    assert forall|i: int| 0 <= i < sorted.len() implies read.contains(#[trigger] sorted[i]) by {
        assert(entry_sort::is_among(ranks, ranks.len() as int, ranks[i]));
        assert(read[ranks[i] as int] == sorted[i]);
    }
    assert forall|i: int, j: int| 0 <= i < j < sorted.len() implies !comparator.less(
        (#[trigger] sorted[j]).0,
        (#[trigger] sorted[i]).0,
    ) by {
        let (a, b) = (ranks[i] as int, ranks[j] as int);
        assert(entry_sort::ahead(comparator, read, a, b));
        assert(entry_sort::is_among(ranks, ranks.len() as int, ranks[i]));
        assert(entry_sort::is_among(ranks, ranks.len() as int, ranks[j]));
        if comparator.less(read[a].0, read[b].0) && comparator.less(read[b].0, read[a].0) {
            comparator.less_transitive(read[a].0, read[b].0, read[a].0);
            comparator.less_irreflexive(read[a].0);
        }
    }
}

/// Whether these pieces are stored as tables under some numbers.
pub open spec fn are_stored<C: Comparator, P: FilterPolicy, Z: Compressor>(
    recipe: Recipe<C, P, Z>,
    dbname: Seq<char>,
    files: Map<Seq<char>, Seq<u8>>,
    numbers: Seq<u64>,
    pieces: Seq<Seq<db_iterator::Pair>>,
) -> bool {
    &&& pieces.len() == numbers.len()
    &&& forall|i: int|
        #![trigger numbers[i]]
        #![trigger pieces[i]]
        0 <= i < numbers.len() ==> files.contains_key(filename::numbered(dbname, numbers[i], "ldb"@))
            && files[filename::numbered(dbname, numbers[i], "ldb"@)] == table_output::table_image(
            recipe,
            pieces[i],
        )
}

/// A compaction changes nothing that a reader sees: of a key, at a sequence number from the
/// oldest snapshot on, the tables that were written and those of the deeper levels tell the
/// value that the tables that were read and the deeper levels told.
pub proof fn law_compaction_is_not_noticed<C: Comparator, P: FilterPolicy, Z: Compressor>(
    settings: OutputSettings<P, Z>,
    smallest_snapshot: u64,
    deeper: DeeperFiles<C>,
    dbname: Seq<char>,
    before: Map<Seq<char>, Seq<u8>>,
    after: Map<Seq<char>, Seq<u8>>,
    numbers: Seq<u64>,
    metas: Seq<FileMetaData>,
    read: Seq<db_iterator::Pair>,
    ranks: Seq<usize>,
    contents: Map<Seq<u8>, Seq<u8>>,
    sequence: nat,
    user_key: Seq<u8>,
    value: Seq<u8>,
)
    requires
        outputs::is_compaction(
            InternalKeyComparator::over(deeper.comparator),
            settings,
            smallest_snapshot,
            deeper,
            dbname,
            before,
            after,
            numbers,
            metas,
            read,
            ranks,
        ),
        numbers.no_duplicates(),
        db_iterator::sorted(
            InternalKeyComparator::over(deeper.comparator),
            outputs::arranged(read, ranks),
        ),
        seen::contents_sound(
            deeper.comparator,
            db_iterator::map_of(outputs::arranged(read, ranks)),
        ),
        seen::contents_sound(deeper.comparator, contents),
        compaction::keys_are_plain(deeper.comparator, outputs::arranged(read, ranks)),
        compaction::lies_in_bounds(deeper, contents),
        smallest_snapshot <= crate::format::MAX_SEQUENCE_NUMBER,
        smallest_snapshot <= sequence,
        deeper.comparator.admits(user_key),
    ensures
        exists|pieces: Seq<Seq<db_iterator::Pair>>| #[trigger]
            are_stored(
                settings.recipe(InternalKeyComparator::over(deeper.comparator)),
                dbname,
                after,
                numbers,
                pieces,
            ) && {
                let user = deeper.comparator;
                let read_before = db_iterator::map_of(outputs::arranged(read, ranks));
                let read_after = db_iterator::map_of(pieces.flatten());
                let older = seen::seen_at(user, contents, sequence, user_key);
                seen::first_seen(
                    seen::seen_at(user, read_before, sequence, user_key),
                    older,
                ) == Seen::Value(value) <==> seen::first_seen(
                    seen::seen_at(user, read_after, sequence, user_key),
                    older,
                ) == Seen::Value(value)
            },
{
    let order = InternalKeyComparator::over(deeper.comparator);
    let recipe = settings.recipe(order);
    let input = outputs::arranged(read, ranks);
    let kept = compaction::kept_from(input, 0, smallest_snapshot, deeper);
    compaction::law_compaction_changes_nothing(
        input,
        smallest_snapshot,
        deeper,
        contents,
        sequence,
        user_key,
        value,
    );
    let pieces = choose|pieces: Seq<Seq<db_iterator::Pair>>| #[trigger]
        outputs::outputs_are(
            recipe,
            settings.max_file_size,
            dbname,
            kept,
            before,
            after,
            numbers,
            metas,
            pieces,
        );
    lemma_pieces(recipe, kept, settings.max_file_size, pieces, kept.len() as int);
    lemma_files_with(before, dbname, recipe, numbers, pieces);
    assert(kept.take(kept.len() as int) =~= kept);
    assert(pieces.flatten() == kept);
    assert forall|i: int|
        #![trigger numbers[i]]
        #![trigger pieces[i]]
        0 <= i < numbers.len() implies after.contains_key(
        filename::numbered(dbname, numbers[i], "ldb"@),
    ) && after[filename::numbered(dbname, numbers[i], "ldb"@)] == table_output::table_image(
        recipe,
        pieces[i],
    ) by {}
    assert(are_stored(recipe, dbname, after, numbers, pieces));
}

/// Tables whose entries are well formed and all different can be compacted, and a compaction
/// that could read its tables fails only where they cannot be.
pub proof fn law_compaction_fails_for_a_reason<C: Comparator>(
    comparator: InternalKeyComparator<C>,
    read: Vec<(Vec<u8>, Vec<u8>)>,
    error: status::Status,
)
    requires
        outputs::fails_with(
            comparator,
            Ok::<Vec<(Vec<u8>, Vec<u8>)>, status::Status>(read),
            error,
        ),
        read@.len() < u64::MAX,
    ensures
        ({
            let pairs = table_iterator::pair_views(read@);
            ||| exists|i: int| 0 <= i < pairs.len() && !comparator.admits(#[trigger] pairs[i].0)
            ||| exists|i: int, j: int|
                0 <= i < j < pairs.len() && !comparator.less(
                    #[trigger] pairs[i].0,
                    #[trigger] pairs[j].0,
                ) && !comparator.less(pairs[j].0, pairs[i].0)
        }),
{
    let pairs = table_iterator::pair_views(read@);
    if entry_sort::all_comparable(comparator, pairs) {
        let ranks = choose|ranks: Seq<usize>| #[trigger]
            entry_sort::is_sorted_by(comparator, pairs, ranks) && !db_iterator::sorted(
                comparator,
                outputs::arranged(pairs, ranks),
            );
        let sorted = outputs::arranged(pairs, ranks);
        assert forall|i: int| 0 <= i < ranks.len() implies (#[trigger] ranks[i] as int)
            < pairs.len() by {
            assert(entry_sort::is_among(ranks, ranks.len() as int, ranks[i]));
        }
        assert forall|i: int| 0 <= i < sorted.len() implies comparator.admits(
            #[trigger] sorted[i].0,
        ) by {
            assert((ranks[i] as int) < pairs.len());
            assert(comparator.admits(pairs[ranks[i] as int].0));
        }
        let (a, b) = choose|a: int, b: int|
            0 <= a < b < sorted.len() && !comparator.less(
                #[trigger] sorted[a].0,
                #[trigger] sorted[b].0,
            );
        let (i, j) = (ranks[a] as int, ranks[b] as int);
        assert(entry_sort::ahead(comparator, pairs, ranks[a] as int, ranks[b] as int));
        assert(!comparator.less(pairs[i].0, pairs[j].0));
        assert(!comparator.less(pairs[j].0, pairs[i].0) && i < j);
    } else {
        let i = choose|i: int|
            0 <= i < pairs.len() && !comparator.admits(#[trigger] pairs[i].0);
        assert(!comparator.admits(pairs[i].0));
    }
}

/// A compaction starts from all entries of all tables that it was given, each read from its
/// file, and from no others.
pub proof fn law_compaction_reads_all_inputs<
    E: Env,
    C: Comparator,
    L: DeeperLevels,
    P: FilterPolicy,
    Z: Compressor,
>(
    comparator: InternalKeyComparator<C>,
    settings: OutputSettings<P, Z>,
    smallest_snapshot: u64,
    levels: L,
    dbname: Seq<char>,
    inputs: Seq<u64>,
    verify: bool,
    before: E,
    after: E,
    numbers: Seq<u64>,
    metas: Seq<FileMetaData>,
)
    requires
        outputs::compacted_from::<E, C, L, P, Z>(
            comparator,
            settings,
            smallest_snapshot,
            levels,
            dbname,
            inputs,
            verify,
            before,
            after,
            numbers,
            metas,
        ),
    ensures
        exists|parts: Seq<Vec<(Vec<u8>, Vec<u8>)>>, ranks: Seq<usize>|
            #[trigger] are_entries_of::<InternalKeyComparator<C>, E::RandomAccess, Z>(
                comparator,
                settings.compressor,
                before.files(),
                dbname,
                inputs,
                verify,
                parts,
            ) && #[trigger] outputs::is_compaction(
                comparator,
                settings,
                smallest_snapshot,
                levels,
                dbname,
                before.files(),
                after.files(),
                numbers,
                metas,
                table_iterator::pair_views(contents_of(parts).flatten()),
                ranks,
            ),
{
    let (read, ranks) = choose|read: Vec<(Vec<u8>, Vec<u8>)>, ranks: Seq<usize>|
        outputs::was_read::<InternalKeyComparator<C>, E::RandomAccess, Z>(
            comparator,
            settings.compressor,
            before.files(),
            dbname,
            inputs,
            verify,
            Ok::<Vec<(Vec<u8>, Vec<u8>)>, status::Status>(read),
        ) && #[trigger] outputs::is_compaction(
            comparator,
            settings,
            smallest_snapshot,
            levels,
            dbname,
            before.files(),
            after.files(),
            numbers,
            metas,
            table_iterator::pair_views(read@),
            ranks,
        );
    law_inputs_are_read_whole::<InternalKeyComparator<C>, E::RandomAccess, Z>(
        comparator,
        settings.compressor,
        before.files(),
        dbname,
        inputs,
        verify,
        read,
    );
    let parts = choose|parts: Seq<Vec<(Vec<u8>, Vec<u8>)>>| #[trigger]
        are_entries_of::<InternalKeyComparator<C>, E::RandomAccess, Z>(
            comparator,
            settings.compressor,
            before.files(),
            dbname,
            inputs,
            verify,
            parts,
        ) && read@ == contents_of(parts).flatten();
    assert(outputs::is_compaction(
        comparator,
        settings,
        smallest_snapshot,
        levels,
        dbname,
        before.files(),
        after.files(),
        numbers,
        metas,
        table_iterator::pair_views(contents_of(parts).flatten()),
        ranks,
    ));
}

} // verus!
