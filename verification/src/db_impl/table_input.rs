//! Reading all entries of tables.

use vstd::prelude::*;

use std::sync::Arc;

use crate::comparator;
use crate::comparator::Comparator;
use crate::db_iter::db_iterator;
use crate::env::Env;
use crate::env::RandomAccessFile;
use crate::filename;
use crate::filter::BloomFilterPolicy;
use crate::filter::FilterPolicy;
use crate::status;
use crate::table::draft;
use crate::table::draft::Draft;
use crate::table::draft::Recipe;
use crate::table::laws;
use crate::table::reader;
use crate::table::reader::BlockFor;
use crate::table::table_builder;
use crate::table::table_iterator;
use crate::table::Compressor;
use crate::table::Table;
use crate::table_cache;

verus! {

/// Whether a table is what opening a file of the given bytes gives.
pub open spec fn is_table<C: Comparator, F: RandomAccessFile, Z: Compressor>(
    comparator: C,
    compressor: Option<Arc<Z>>,
    bytes: Seq<u8>,
    table: Table<C, F, BloomFilterPolicy, Z>,
) -> bool {
    &&& table.bytes() == bytes
    &&& reader::opens_as(
        reader::opened(bytes, bytes.len() as int, compressor),
        comparator,
        None::<Arc<BloomFilterPolicy>>,
        compressor,
        Ok::<Table<C, F, BloomFilterPolicy, Z>, status::Status>(table),
    )
}

/// What reading all entries of a table from the bytes of its file returns: the entries,
/// or what is wrong with the file or with the first block that cannot be read.
#[verifier::opaque]
pub open spec fn entries_read<C: Comparator, F: RandomAccessFile, Z: Compressor>(
    comparator: C,
    compressor: Option<Arc<Z>>,
    bytes: Seq<u8>,
    verify: bool,
    read: status::Result<Vec<(Vec<u8>, Vec<u8>)>>,
) -> bool {
    let expected = reader::opened(bytes, bytes.len() as int, compressor);
    if !(expected is Opened) {
        read matches Err(error) && table_cache::fails_as(expected, error)
    } else {
        exists|table: Table<C, F, BloomFilterPolicy, Z>| #[trigger]
            is_table(comparator, compressor, bytes, table) && table.collected_is(verify, read)
    }
}

/// Reads all entries of the table at a path. With `verify` the checksums of the blocks
/// are checked.
pub fn read_table_entries<E: Env, C: Comparator, Z: Compressor>(
    env: &E,
    path: &str,
    comparator: &C,
    compressor: &Option<Arc<Z>>,
    verify: bool,
) -> (read: status::Result<Vec<(Vec<u8>, Vec<u8>)>>)
    requires
        env.wf(),
    ensures
        read is Ok ==> env.files().contains_key(path@),
        (env.reliable() || read is Ok) && env.files().contains_key(path@) ==> entries_read::<
            C,
            E::RandomAccess,
            Z,
        >(*comparator, *compressor, env.files()[path@], verify, read),
{
    proof {
        reveal(entries_read);
    }
    let file_size: u64 = match env.get_file_size(path) {
        Err(error) => {
            return Err(error);
        },
        Ok(size) => size,
    };
    let file = match env.new_random_access_file(path) {
        Err(error) => {
            return Err(error);
        },
        Ok(file) => file,
    };
    let opened: status::Result<Table<C, E::RandomAccess, BloomFilterPolicy, Z>> =
        Table::open_random_with_options(
        file,
        file_size,
        comparator::copy_of(comparator),
        0,
        None,
        table_builder::share_option(compressor),
    );
    match opened {
        Err(error) => Err(error),
        Ok(table) => {
            let read = table.collect_entries_verify(verify);
            proof {
                assert(is_table(*comparator, *compressor, env.files()[path@], table));
            }
            read
        },
    }
}

/// Whether this is what the table of a number holds.
pub open spec fn part_read<C: Comparator, F: RandomAccessFile, Z: Compressor>(
    comparator: C,
    compressor: Option<Arc<Z>>,
    files: Map<Seq<char>, Seq<u8>>,
    path: Seq<char>,
    verify: bool,
    part: Vec<(Vec<u8>, Vec<u8>)>,
) -> bool {
    files.contains_key(path) && entries_read::<C, F, Z>(
        comparator,
        compressor,
        files[path],
        verify,
        Ok::<Vec<(Vec<u8>, Vec<u8>)>, status::Status>(part),
    )
}

/// Whether these are the entries of the first tables of some numbers.
pub open spec fn inputs_read<C: Comparator, F: RandomAccessFile, Z: Compressor>(
    comparator: C,
    compressor: Option<Arc<Z>>,
    files: Map<Seq<char>, Seq<u8>>,
    dbname: Seq<char>,
    numbers: Seq<u64>,
    verify: bool,
    parts: Seq<Vec<(Vec<u8>, Vec<u8>)>>,
) -> bool {
    &&& parts.len() <= numbers.len()
    &&& forall|i: int|
        #![trigger parts[i]]
        0 <= i < parts.len() ==> part_read::<C, F, Z>(
            comparator,
            compressor,
            files,
            filename::numbered(dbname, numbers[i], "ldb"@),
            verify,
            parts[i],
        )
}

/// The entries of all parts.
pub open spec fn joined_parts(parts: Seq<Vec<(Vec<u8>, Vec<u8>)>>) -> Seq<(Vec<u8>, Vec<u8>)>
    decreases parts.len(),
{
    if parts.len() == 0 {
        Seq::empty()
    } else {
        joined_parts(parts.drop_last()) + parts.last()@
    }
}

/// Whether this is what reading the tables of some numbers returns: all their entries,
/// or what reading the first of them that cannot be read returns.
pub open spec fn read_is<C: Comparator, F: RandomAccessFile, Z: Compressor>(
    comparator: C,
    compressor: Option<Arc<Z>>,
    files: Map<Seq<char>, Seq<u8>>,
    dbname: Seq<char>,
    numbers: Seq<u64>,
    verify: bool,
    parts: Seq<Vec<(Vec<u8>, Vec<u8>)>>,
    read: status::Result<Vec<(Vec<u8>, Vec<u8>)>>,
) -> bool {
    &&& inputs_read::<C, F, Z>(
        comparator,
        compressor,
        files,
        dbname,
        numbers,
        verify,
        parts,
    )
    &&& match read {
        Ok(all) => parts.len() == numbers.len() && all@ == joined_parts(parts),
        Err(_) => parts.len() < numbers.len() && {
            let path = filename::numbered(dbname, numbers[parts.len() as int], "ldb"@);
            files.contains_key(path) ==> entries_read::<C, F, Z>(
                comparator,
                compressor,
                files[path],
                verify,
                read,
            )
        },
    }
}

/// Reads all entries of the tables of some numbers, one table after the other.
pub fn read_inputs<E: Env, C: Comparator, Z: Compressor>(
    env: &E,
    dbname: &str,
    numbers: &Vec<u64>,
    comparator: &C,
    compressor: &Option<Arc<Z>>,
    verify: bool,
) -> (read: status::Result<Vec<(Vec<u8>, Vec<u8>)>>)
    requires
        env.wf(),
    ensures
        env.reliable() || read is Ok ==> exists|parts: Seq<Vec<(Vec<u8>, Vec<u8>)>>| #[trigger]
            read_is::<C, E::RandomAccess, Z>(
                *comparator,
                *compressor,
                env.files(),
                dbname@,
                numbers@,
                verify,
                parts,
                read,
            ),
{
    let mut all: Vec<(Vec<u8>, Vec<u8>)> = Vec::new();
    let ghost mut parts: Seq<Vec<(Vec<u8>, Vec<u8>)>> = Seq::empty();
    let mut index: usize = 0;
    while index < numbers.len()
        invariant
            index <= numbers@.len(),
            env.wf(),
            parts.len() == index,
            all@ == joined_parts(parts),
            inputs_read::<C, E::RandomAccess, Z>(
                *comparator,
                *compressor,
                env.files(),
                dbname@,
                numbers@,
                verify,
                parts,
            ),
        decreases numbers@.len() - index,
    {
        let path = filename::table_file_name(dbname, numbers[index]);
        let read = read_table_entries(env, path.as_str(), comparator, compressor, verify);
        let ghost told = read;
        match read {
            Err(error) => {
                let failed: status::Result<Vec<(Vec<u8>, Vec<u8>)>> = Err(error);
                assert(env.reliable() ==> read_is::<C, E::RandomAccess, Z>(
                    *comparator,
                    *compressor,
                    env.files(),
                    dbname@,
                    numbers@,
                    verify,
                    parts,
                    failed,
                ));
                return failed;
            },
            Ok(part_read) => {
                let mut more = part_read;
                let ghost part = more;
                all.append(&mut more);
                proof {
                    let before = parts;
                    assert(told == Ok::<Vec<(Vec<u8>, Vec<u8>)>, status::Status>(part));
                    parts = parts.push(part);
                    assert(parts.drop_last() =~= before);
                    assert(all@ =~= joined_parts(parts));
                }
            },
        }
        index = index + 1;
    }
    let whole: status::Result<Vec<(Vec<u8>, Vec<u8>)>> = Ok(all);
    assert(read_is::<C, E::RandomAccess, Z>(
        *comparator,
        *compressor,
        env.files(),
        dbname@,
        numbers@,
        verify,
        parts,
        whole,
    ));
    whole
}

/// The entries of the first blocks of a table.
proof fn lemma_entries_upto<C: Comparator, F: RandomAccessFile, Z: Compressor>(
    table: Table<C, F, BloomFilterPolicy, Z>,
    blocks: Seq<Seq<db_iterator::Pair>>,
    verify: bool,
    count: int,
)
    requires
        0 <= count <= blocks.len(),
        forall|i: int|
            0 <= i < blocks.len() ==> #[trigger] table.block_at(i, verify) == BlockFor::Entries(
                blocks[i],
            ),
    ensures
        table.entries_upto(count, verify) == draft::joined(blocks.take(count)),
    decreases count,
{
    if count > 0 {
        lemma_entries_upto(table, blocks, verify, count - 1);
        assert(blocks.take(count).drop_last() =~= blocks.take(count - 1));
        assert(blocks.take(count).last() == blocks[count - 1]);
        assert(table.block_at(count - 1, verify) == BlockFor::Entries(blocks[count - 1]));
    } else {
        assert(blocks.take(0) =~= Seq::<Seq<db_iterator::Pair>>::empty());
    }
}

/// The index of a finished table, once it is opened.
proof fn lemma_index<C: Comparator, F: RandomAccessFile, P: FilterPolicy, Z: Compressor>(
    recipe: Recipe<C, P, Z>,
    draft: Draft,
    table: Table<C, F, BloomFilterPolicy, Z>,
)
    requires
        draft::finished_well(recipe, draft),
        laws::fits(recipe, draft),
        is_table(recipe.comparator, recipe.compressor, recipe.finished(draft).image, table),
    ensures
        table.index() == recipe.finished(draft).index,
        table.indexed(),
        table.walked() == table.index(),
        crate::block::data::all_of(table.index_image()).1 is None,
        table.order() == recipe.comparator,
        table.zip() == recipe.compressor,
{
    laws::law_finished_opens(recipe, draft);
    table.lemma_walked();
}

/// A block of a finished table, once it is opened.
proof fn lemma_block<C: Comparator, F: RandomAccessFile, P: FilterPolicy, Z: Compressor>(
    recipe: Recipe<C, P, Z>,
    draft: Draft,
    table: Table<C, F, BloomFilterPolicy, Z>,
    verify: bool,
    i: int,
)
    requires
        table.bytes() == recipe.finished(draft).image,
        table.index() == recipe.finished(draft).index,
        table.walked() == table.index(),
        table.order() == recipe.comparator,
        table.zip() == recipe.compressor,
        laws::leads_to(
            recipe,
            recipe.finished(draft).image,
            recipe.finished(draft).index[i].1,
            verify,
            recipe.flushed(draft).blocks[i],
        ),
    ensures
        table.block_at(i, verify) == BlockFor::Entries(recipe.flushed(draft).blocks[i]),
{
}

/// Reading all entries of a finished table gives back the entries that were added.
pub proof fn law_written_is_read<
    C: Comparator,
    F: RandomAccessFile,
    P: FilterPolicy,
    Z: Compressor,
>(
    recipe: Recipe<C, P, Z>,
    draft: Draft,
    verify: bool,
    read: status::Result<Vec<(Vec<u8>, Vec<u8>)>>,
)
    requires
        draft::finished_well(recipe, draft),
        laws::fits(recipe, draft),
        entries_read::<C, F, Z>(
            recipe.comparator,
            recipe.compressor,
            recipe.finished(draft).image,
            verify,
            read,
        ),
    ensures
        read matches Ok(all) && table_iterator::pair_views(all@) == draft.entries(),
{
    reveal(entries_read);
    let image = recipe.finished(draft).image;
    let blocks = recipe.flushed(draft).blocks;
    laws::law_finished_opens(recipe, draft);
    let table = choose|table: Table<C, F, BloomFilterPolicy, Z>| #[trigger]
        is_table(recipe.comparator, recipe.compressor, image, table) && table.collected_is(
            verify,
            read,
        );
    lemma_index(recipe, draft, table);
    assert forall|i: int| 0 <= i < blocks.len() implies #[trigger] table.block_at(i, verify)
        == BlockFor::Entries(blocks[i]) by {
        assert(laws::either(verify));
        assert(laws::leads_to(
            recipe,
            image,
            recipe.finished(draft).index[i].1,
            verify,
            blocks[i],
        ));
        lemma_block(recipe, draft, table, verify, i);
    }
    lemma_entries_upto(table, blocks, verify, blocks.len() as int);
    assert(blocks.take(blocks.len() as int) =~= blocks);
}

} // verus!
