//! What a scan of a database runs over.

use vstd::prelude::*;

use crate::block::block_builder;
use crate::block::data;
use crate::coding;
use crate::comparator;
use crate::comparator::Comparator;
use crate::db_impl::enter;
use crate::db_impl::level_iter;
use crate::db_impl::scan;
use crate::db_impl::scan::Source;
use crate::db_impl::state::DBImplCore;
use crate::db_iter::db_iterator;
use crate::db_iter::db_iterator::Scan;
use crate::filter::FilterPolicy;
use crate::format::InternalKeyComparator;
use crate::merging_iter;
use crate::table::draft;
use crate::table::draft::Draft;
use crate::table::draft::Recipe;
use crate::table::laws;
use crate::table::table_iterator;
use crate::table::Compressor;
use crate::table_cache;
use crate::table_cache::TableSetup;
use crate::two_level_iter;
use crate::version_set::FileMetaData;

verus! {

/// Whether the table of a file of some level holds an entry.
pub open spec fn is_in_table<C: Comparator, P: FilterPolicy, Z: Compressor>(
    setup: TableSetup<InternalKeyComparator<C>, P, Z>,
    stored: Map<Seq<char>, Seq<u8>>,
    verify: bool,
    steady: bool,
    levels: Seq<Vec<FileMetaData>>,
    level: int,
    i: int,
    entry: db_iterator::Pair,
) -> bool {
    &&& 0 <= level < levels.len()
    &&& 0 <= i < levels[level]@.len()
    &&& scan::stored_table(
        setup,
        stored,
        verify,
        steady,
        levels[level]@[i].number,
    ) matches Some(table) && table.contents.contains_key(entry.0) && table.contents[entry.0]
        == entry.1
}

/// A level that has tables is among the sources.
proof fn lemma_level_is_source(levels: Seq<Vec<FileMetaData>>, count: nat, level: int) -> (k: int)
    requires
        1 <= level < count <= levels.len(),
        levels[level]@.len() > 0,
    ensures
        0 <= k < scan::level_sources(levels, count).len(),
        scan::level_sources(levels, count)[k] == Source::Level(levels[level]@),
    decreases count,
{
    let front = scan::level_sources(levels, (count - 1) as nat);
    if level == count - 1 {
        front.len() as int
    } else {
        lemma_level_is_source(levels, (count - 1) as nat, level)
    }
}

/// Each source behind the first level is a level.
proof fn lemma_source_is_level(levels: Seq<Vec<FileMetaData>>, count: nat, k: int) -> (level: int)
    requires
        count <= levels.len(),
        0 <= k < scan::level_sources(levels, count).len(),
    ensures
        1 <= level < count,
        scan::level_sources(levels, count)[k] == Source::Level(levels[level]@),
    decreases count,
{
    let front = scan::level_sources(levels, (count - 1) as nat);
    if k < front.len() {
        lemma_source_is_level(levels, (count - 1) as nat, k)
    } else {
        count - 1
    }
}

/// The index of a level leads to the table of each of its files.
proof fn lemma_index_leads<C: Comparator, P: FilterPolicy, Z: Compressor>(
    setup: TableSetup<InternalKeyComparator<C>, P, Z>,
    stored: Map<Seq<char>, Seq<u8>>,
    verify: bool,
    steady: bool,
    files: Seq<FileMetaData>,
    i: int,
)
    requires
        db_iterator::sorted(setup.comparator, level_iter::level_index(files)),
        0 <= i < files.len(),
    ensures
        ({
            let index = db_iterator::map_of(level_iter::level_index(files));
            let blocks = level_iter::level_blocks(
                comparator::domain_of(setup.comparator),
                scan::level_tables(setup, stored, verify, steady, files),
            );
            &&& index.contains_key(files[i].largest@)
            &&& (blocks.source)(index[files[i].largest@]) == scan::stored_table(
                setup,
                stored,
                verify,
                steady,
                files[i].number,
            )
        }),
{
    let entries = level_iter::level_index(files);
    db_iterator::lemma_map_of(setup.comparator, entries, i);
    assert(entries[i].0 == files[i].largest@);
    coding::lemma_pow256_values();
    coding::lemma_le_bytes_len(files[i].number as nat, 8);
    coding::law_fixed_round_trip(files[i].number as nat, 8);
    assert(scan::has_file(files, files[i].number));
}

/// What a table of a sound level holds is what the level holds.
proof fn lemma_level_holds<C: Comparator, P: FilterPolicy, Z: Compressor>(
    setup: TableSetup<InternalKeyComparator<C>, P, Z>,
    stored: Map<Seq<char>, Seq<u8>>,
    verify: bool,
    steady: bool,
    files: Seq<FileMetaData>,
    i: int,
    x: Seq<u8>,
)
    requires
        scan::level_scan(setup, stored, verify, steady, files).intact,
        0 <= i < files.len(),
        scan::stored_table(setup, stored, verify, steady, files[i].number) matches Some(table)
            && table.contents.contains_key(x),
    ensures
        ({
            let level = scan::level_scan(setup, stored, verify, steady, files);
            let table = scan::stored_table(setup, stored, verify, steady, files[i].number)->0;
            level.contents.contains_key(x) && level.contents[x] == table.contents[x]
        }),
{
    let entries = level_iter::level_index(files);
    let index = db_iterator::map_of(entries);
    let blocks = level_iter::level_blocks(
        comparator::domain_of(setup.comparator),
        scan::level_tables(setup, stored, verify, steady, files),
    );
    let place = files[i].largest@;
    lemma_index_leads(setup, stored, verify, steady, files, i);
    assert(two_level_iter::lies_behind(blocks, index, place, x));
    assert(two_level_iter::lies_somewhere(blocks, index, x));
    let other = choose|other: Seq<u8>| two_level_iter::lies_behind(blocks, index, other, x);
    assert(two_level_iter::lies_behind(blocks, index, other, x));
    if other != place {
        let before = comparator::order_of(setup.comparator);
        assert(index.contains_key(other) && index.contains_key(place));
        assert(before(other, place) || before(place, other));
    }
}

/// What a level holds is in the table of one of its files.
proof fn lemma_level_held<C: Comparator, P: FilterPolicy, Z: Compressor>(
    setup: TableSetup<InternalKeyComparator<C>, P, Z>,
    stored: Map<Seq<char>, Seq<u8>>,
    verify: bool,
    steady: bool,
    files: Seq<FileMetaData>,
    x: Seq<u8>,
) -> (i: int)
    requires
        scan::level_scan(setup, stored, verify, steady, files).intact,
        scan::level_scan(setup, stored, verify, steady, files).contents.contains_key(x),
    ensures
        0 <= i < files.len(),
        scan::stored_table(setup, stored, verify, steady, files[i].number) matches Some(table)
            && table.contents.contains_key(x) && table.contents[x] == scan::level_scan(
            setup,
            stored,
            verify,
            steady,
            files,
        ).contents[x],
{
    let entries = level_iter::level_index(files);
    let index = db_iterator::map_of(entries);
    let blocks = level_iter::level_blocks(
        comparator::domain_of(setup.comparator),
        scan::level_tables(setup, stored, verify, steady, files),
    );
    let place = choose|place: Seq<u8>| two_level_iter::lies_behind(blocks, index, place, x);
    assert(two_level_iter::lies_somewhere(blocks, index, x));
    assert(two_level_iter::lies_behind(blocks, index, place, x));
    let i = choose|i: int| 0 <= i < entries.len() && #[trigger] entries[i].0 == place;
    assert(db_iterator::has_key(entries, place));
    assert(entries[i].0 == files[i].largest@);
    lemma_index_leads(setup, stored, verify, steady, files, i);
    lemma_level_holds(setup, stored, verify, steady, files, i, x);
    i
}

/// What one of several disjoint sources holds is what they hold together.
proof fn lemma_merged_holds<C: Comparator>(order: C, scans: Seq<Scan>, whole: Scan, k: int, x: Seq<u8>)
    requires
        scan::merges(order, scans, whole),
        whole.intact,
        0 <= k < scans.len(),
        scans[k].contents.contains_key(x),
    ensures
        whole.contents.contains_key(x),
        whole.contents[x] == scans[k].contents[x],
{
    let contents = Seq::new(scans.len(), |i: int| scans[i].contents);
    assert(contents[k].contains_key(x));
    assert(merging_iter::any_has(contents, x));
    let other = choose|i: int| 0 <= i < contents.len() && #[trigger] contents[i].contains_key(x);
    assert(contents[other].contains_key(x));
    assert(comparator::short_domain_of(order)(x));
    order.less_irreflexive(x);
    assert(other == k);
}

/// A scan runs over what a memtable holds.
proof fn lemma_memory_is_scanned<C: Comparator + 'static, P: FilterPolicy, Z: Compressor>(
    core: DBImplCore<C>,
    setup: TableSetup<InternalKeyComparator<C>, P, Z>,
    stored: Map<Seq<char>, Seq<u8>>,
    levels: Seq<Vec<FileMetaData>>,
    verify: bool,
    steady: bool,
    whole: Scan,
    scans: Seq<Scan>,
    k: int,
    x: Seq<u8>,
)
    requires
        scan::run_over_all(
            setup,
            stored,
            verify,
            steady,
            scan::sources_of(core.memory(), levels),
            scans,
        ),
        scan::merges(InternalKeyComparator::over(core.comparator), scans, whole),
        whole.intact,
        0 <= k < core.memory().len(),
        core.memory()[k].contains_key(x),
    ensures
        whole.contents.contains_key(x),
        whole.contents[x] == core.memory()[k][x],
{
    let sources = scan::sources_of(core.memory(), levels);
    assert(sources[k] == Source::Memory(core.memory()[k]));
    assert(scan::runs_over(setup, stored, verify, steady, sources[k], scans[k]));
    lemma_merged_holds(InternalKeyComparator::over(core.comparator), scans, whole, k, x);
}

/// A scan runs over what a table holds.
proof fn lemma_table_is_scanned<C: Comparator + 'static, P: FilterPolicy, Z: Compressor>(
    core: DBImplCore<C>,
    setup: TableSetup<InternalKeyComparator<C>, P, Z>,
    stored: Map<Seq<char>, Seq<u8>>,
    levels: Seq<Vec<FileMetaData>>,
    verify: bool,
    steady: bool,
    whole: Scan,
    scans: Seq<Scan>,
    level: int,
    i: int,
    x: Seq<u8>,
    value: Seq<u8>,
)
    requires
        scan::run_over_all(
            setup,
            stored,
            verify,
            steady,
            scan::sources_of(core.memory(), levels),
            scans,
        ),
        scan::merges(InternalKeyComparator::over(core.comparator), scans, whole),
        whole.intact,
        is_in_table(setup, stored, verify, steady, levels, level, i, (x, value)),
    ensures
        whole.contents.contains_key(x),
        whole.contents[x] == value,
{
    let order = InternalKeyComparator::over(core.comparator);
    let memory = core.memory();
    let sources = scan::sources_of(memory, levels);
    let first = scan::first_level_sources(levels[0]@);
    let deeper = scan::level_sources(levels, levels.len());
    if level == 0 {
        let k = memory.len() + i;
        assert(first[i] == Source::Table(levels[0]@[i].number));
        assert(sources[k] == first[i]);
        assert(scan::runs_over(setup, stored, verify, steady, sources[k], scans[k]));
        lemma_merged_holds(order, scans, whole, k, x);
    } else {
        let place = lemma_level_is_source(levels, levels.len(), level);
        let k = memory.len() + first.len() + place;
        assert(sources[k] == deeper[place]);
        assert(scan::runs_over(setup, stored, verify, steady, sources[k], scans[k]));
        assert(scans[k].intact);
        lemma_level_holds(setup, stored, verify, steady, levels[level]@, i, x);
        lemma_merged_holds(order, scans, whole, k, x);
    }
}

/// What a scan runs over is in a memtable, or in the table of a file.
proof fn lemma_scanned_is_held<C: Comparator + 'static, P: FilterPolicy, Z: Compressor>(
    core: DBImplCore<C>,
    setup: TableSetup<InternalKeyComparator<C>, P, Z>,
    stored: Map<Seq<char>, Seq<u8>>,
    levels: Seq<Vec<FileMetaData>>,
    verify: bool,
    steady: bool,
    whole: Scan,
    scans: Seq<Scan>,
    x: Seq<u8>,
)
    requires
        scan::run_over_all(
            setup,
            stored,
            verify,
            steady,
            scan::sources_of(core.memory(), levels),
            scans,
        ),
        scan::merges(InternalKeyComparator::over(core.comparator), scans, whole),
        whole.intact,
        whole.contents.contains_key(x),
    ensures
        (exists|k: int|
            0 <= k < core.memory().len() && #[trigger] core.memory()[k].contains_key(x)
                && core.memory()[k][x] == whole.contents[x]) || exists|level: int, i: int| #[trigger]
            is_in_table(
                setup,
                stored,
                verify,
                steady,
                levels,
                level,
                i,
                (x, whole.contents[x]),
            ),
{
    let order = InternalKeyComparator::over(core.comparator);
    let memory = core.memory();
    let value = whole.contents[x];
    let sources = scan::sources_of(memory, levels);
    let first = if levels.len() > 0 {
        scan::first_level_sources(levels[0]@)
    } else {
        Seq::empty()
    };
    let deeper = scan::level_sources(levels, levels.len());
    let contents = Seq::new(scans.len(), |i: int| scans[i].contents);
    assert(merging_iter::any_has(contents, x));
    let k = choose|i: int| 0 <= i < contents.len() && #[trigger] contents[i].contains_key(x);
    assert(scans[k].contents.contains_key(x));
    lemma_merged_holds(order, scans, whole, k, x);
    assert(scan::runs_over(setup, stored, verify, steady, sources[k], scans[k]));
    assert(scans[k].intact);
    if k < memory.len() {
        assert(sources[k] == Source::Memory(memory[k]));
        assert(memory[k].contains_key(x));
    } else if k < memory.len() + first.len() {
        let i = k - memory.len();
        assert(sources[k] == first[i]);
        assert(first[i] == Source::Table(levels[0]@[i].number));
        assert(is_in_table(setup, stored, verify, steady, levels, 0, i, (x, value)));
    } else {
        let place = k - memory.len() - first.len();
        assert(sources[k] == deeper[place]);
        let level = lemma_source_is_level(levels, levels.len(), place);
        let i = lemma_level_held(setup, stored, verify, steady, levels[level]@, x);
        assert(is_in_table(setup, stored, verify, steady, levels, level, i, (x, value)));
    }
}

/// A scan of a database runs over all that the memtables hold and all that the table of each
/// file of each level holds, and over nothing else.
#[verifier::spinoff_prover]
#[verifier::rlimit(40)]
pub proof fn law_scan_runs_over_all_levels<
    C: Comparator + 'static,
    P: FilterPolicy,
    Z: Compressor,
>(
    core: DBImplCore<C>,
    setup: TableSetup<InternalKeyComparator<C>, P, Z>,
    stored: Map<Seq<char>, Seq<u8>>,
    levels: Seq<Vec<FileMetaData>>,
    verify: bool,
    steady: bool,
    whole: Scan,
    x: Seq<u8>,
    value: Seq<u8>,
)
    requires
        core.is_whole(setup, stored, levels, verify, steady, whole),
        whole.intact,
    ensures
        whole.contents.contains_key(x) && whole.contents[x] == value <==> {
            ||| enter::mem_contents(core.mem).contains_key(x) && enter::mem_contents(core.mem)[x]
                == value
            ||| core.imm matches Some(imm) && enter::mem_contents(imm).contains_key(x)
                && enter::mem_contents(imm)[x] == value
            ||| exists|level: int, i: int| #[trigger]
                is_in_table(setup, stored, verify, steady, levels, level, i, (x, value))
        },
{
    let order = InternalKeyComparator::over(core.comparator);
    let memory = core.memory();
    let sources = scan::sources_of(memory, levels);
    let scans = choose|scans: Seq<Scan>| #[trigger]
        scan::run_over_all(setup, stored, verify, steady, sources, scans) && scan::merges(
            order,
            scans,
            whole,
        );
    let mem = enter::mem_contents(core.mem);
    assert(memory[0] == mem);
    if mem.contains_key(x) {
        lemma_memory_is_scanned(
            core,
            setup,
            stored,
            levels,
            verify,
            steady,
            whole,
            scans,
            0,
            x,
        );
    }
    if core.imm is Some {
        assert(memory[1] == enter::mem_contents(core.imm->0));
        if memory[1].contains_key(x) {
            lemma_memory_is_scanned(
                core,
                setup,
                stored,
                levels,
                verify,
                steady,
                whole,
                scans,
                1,
                x,
            );
        }
    }
    if exists|level: int, i: int| #[trigger]
        is_in_table(setup, stored, verify, steady, levels, level, i, (x, value)) {
        let (level, i) = choose|level: int, i: int| #[trigger]
            is_in_table(setup, stored, verify, steady, levels, level, i, (x, value));
        lemma_table_is_scanned(
            core,
            setup,
            stored,
            levels,
            verify,
            steady,
            whole,
            scans,
            level,
            i,
            x,
            value,
        );
    }
    if whole.contents.contains_key(x) {
        lemma_scanned_is_held(core, setup, stored, levels, verify, steady, whole, scans, x);
    }
}

/// The table of a file that was written is scanned whole: the scan is sound, can always be
/// read where files can, and runs over just the entries that were added to the table.
pub proof fn law_table_is_scanned_whole<C: Comparator, P: FilterPolicy, Z: Compressor>(
    setup: TableSetup<C, P, Z>,
    stored: Map<Seq<char>, Seq<u8>>,
    verify: bool,
    steady: bool,
    number: u64,
    recipe: Recipe<C, P, Z>,
    draft: Draft,
)
    requires
        draft::finished_well(recipe, draft),
        laws::fits(recipe, draft),
        setup.comparator == recipe.comparator,
        setup.compressor == recipe.compressor,
        stored.contains_key(table_cache::table_path(stored, setup.dbname, number)),
        stored[table_cache::table_path(stored, setup.dbname, number)] == recipe.finished(draft).image,
    ensures
        scan::stored_table(setup, stored, verify, steady, number) matches Some(table) && {
            &&& table.intact
            &&& steady ==> table.steady
            &&& table.contents == db_iterator::map_of(draft.entries())
            &&& table.before == comparator::order_of(recipe.comparator)
            &&& table.admits == comparator::domain_of(recipe.comparator)
        },
{
    let blocks = recipe.flushed(draft).blocks;
    let index = recipe.finished(draft).index;
    let order = recipe.comparator;
    let image = recipe.finished(draft).image;
    let index_image = block_builder::block_image(index, 1);
    let function = table_iterator::table_blocks(order, image, recipe.compressor, verify);
    let index_scan = table_iterator::block_scan(order, index_image);
    laws::law_finished_opens(recipe, draft);
    laws::lemma_joined_sorted(order, index, blocks);
    draft::lemma_index_sorted(order, index, blocks);
    data::lemma_item_count(index_image, order);
    assert(index_scan.contents == db_iterator::map_of(index));
    db_iterator::lemma_sorted_row(index_scan, order, index);
    assert forall|i: int| 0 <= i < index.len() implies table_iterator::behind_is(
        function,
        order,
        #[trigger] index[i],
        blocks[i],
    ) by {
        assert(laws::either(verify));
        assert(laws::leads_to(recipe, image, index[i].1, verify, blocks[i]));
    }
    table_iterator::lemma_joint(function, order, index_scan, index, blocks);
    table_iterator::lemma_same_contents(function, order, index_scan, index, blocks);
}

/// A level whose tables are in order is scanned whole: if each table is sound and its keys lie
/// within its bounds, the scan of the level is sound and runs over the entries of all tables.
pub proof fn law_level_is_scanned_whole<C: Comparator, P: FilterPolicy, Z: Compressor>(
    setup: TableSetup<InternalKeyComparator<C>, P, Z>,
    stored: Map<Seq<char>, Seq<u8>>,
    verify: bool,
    steady: bool,
    files: Seq<FileMetaData>,
    tables: Seq<Seq<db_iterator::Pair>>,
)
    requires
        files.len() == tables.len(),
        files.len() <= u64::MAX,
        db_iterator::sorted(setup.comparator, level_iter::level_index(files)),
        draft::parted(setup.comparator, level_iter::level_index(files), tables),
        forall|i: int|
            0 <= i < files.len() ==> (scan::stored_table(
                setup,
                stored,
                verify,
                steady,
                (#[trigger] files[i]).number,
            ) matches Some(table) && table.intact && table.before == comparator::order_of(
                setup.comparator,
            ) && table.admits == comparator::domain_of(setup.comparator) && table.contents
                == db_iterator::map_of(tables[i])),
    ensures
        ({
            let level = scan::level_scan(setup, stored, verify, steady, files);
            &&& level.intact
            &&& level.steady == steady
            &&& level.contents == db_iterator::map_of(draft::joined(tables))
            &&& level.before == comparator::order_of(setup.comparator)
        }),
{
    let order = setup.comparator;
    let index = level_iter::level_index(files);
    let index_scan = Scan {
        contents: db_iterator::map_of(index),
        before: comparator::order_of(order),
        admits: comparator::domain_of(order),
        intact: db_iterator::sorted(order, index),
        steady: true,
        current: None,
        failure: None,
    };
    let function = level_iter::level_blocks(
        comparator::domain_of(order),
        scan::level_tables(setup, stored, verify, steady, files),
    );
    db_iterator::lemma_sorted_row(index_scan, order, index);
    assert forall|i: int| 0 <= i < index.len() implies table_iterator::behind_is(
        function,
        order,
        #[trigger] index[i],
        tables[i],
    ) by {
        let number = files[i].number;
        coding::lemma_pow256_values();
        coding::lemma_le_bytes_len(number as nat, 8);
        coding::law_fixed_round_trip(number as nat, 8);
        assert(scan::has_file(files, number));
    }
    table_iterator::lemma_joint(function, order, index_scan, index, tables);
    table_iterator::lemma_same_contents(function, order, index_scan, index, tables);
}

/// A merge of sound scans is sound, if no two of them hold keys that count as the same. It can
/// always be read if all of them can.
pub proof fn law_merge_is_intact<C: Comparator>(order: C, scans: Seq<Scan>, whole: Scan)
    requires
        scan::merges(order, scans, whole),
        forall|i: int| 0 <= i < scans.len() ==> (#[trigger] scans[i]).intact,
        forall|i: int, key: Seq<u8>|
            0 <= i < scans.len() && #[trigger] scans[i].contents.contains_key(key)
                ==> comparator::short_domain_of(order)(key),
        forall|i: int, j: int, a: Seq<u8>, b: Seq<u8>|
            #![trigger scans[i].contents.contains_key(a), scans[j].contents.contains_key(b)]
            0 <= i < scans.len() && 0 <= j < scans.len() && i != j
                && scans[i].contents.contains_key(a) && scans[j].contents.contains_key(b)
                ==> order.less(a, b) || order.less(b, a),
    ensures
        whole.intact,
        (forall|i: int| 0 <= i < scans.len() ==> (#[trigger] scans[i]).steady) ==> whole.steady,
        whole.before == comparator::order_of(order),
        forall|key: Seq<u8>| #[trigger]
            whole.contents.contains_key(key) <==> exists|i: int|
                0 <= i < scans.len() && (#[trigger] scans[i]).contents.contains_key(key),
{
    let contents = Seq::new(scans.len(), |i: int| scans[i].contents);
    assert forall|i: int, j: int, a: Seq<u8>, b: Seq<u8>|
        #![trigger contents[i].contains_key(a), contents[j].contains_key(b)]
        0 <= i < contents.len() && 0 <= j < contents.len() && i != j && contents[i].contains_key(a)
            && contents[j].contains_key(b) implies order.less(a, b) || order.less(b, a) by {
        assert(scans[i].contents.contains_key(a));
        assert(scans[j].contents.contains_key(b));
    }
    assert forall|key: Seq<u8>| #[trigger] whole.contents.contains_key(key) <==> exists|i: int|
        0 <= i < scans.len() && (#[trigger] scans[i]).contents.contains_key(key) by {
        if exists|i: int| 0 <= i < scans.len() && (#[trigger] scans[i]).contents.contains_key(key) {
            let i = choose|i: int|
                0 <= i < scans.len() && (#[trigger] scans[i]).contents.contains_key(key);
            assert(contents[i].contains_key(key));
        }
        if whole.contents.contains_key(key) {
            assert(merging_iter::any_has(contents, key));
            let i = choose|i: int|
                0 <= i < contents.len() && #[trigger] contents[i].contains_key(key);
            assert(scans[i].contents.contains_key(key));
        }
    }
}

/// What an iterator over a source runs over: a memtable is sound and always read, a table is
/// what is stored under its number, and a level is what is stored of its files.
pub proof fn law_source_is_run_over<C: Comparator, P: FilterPolicy, Z: Compressor>(
    setup: TableSetup<InternalKeyComparator<C>, P, Z>,
    stored: Map<Seq<char>, Seq<u8>>,
    verify: bool,
    steady: bool,
    source: Source,
    scan: Scan,
)
    requires
        scan::runs_over(setup, stored, verify, steady, source, scan),
    ensures
        match source {
            Source::Memory(contents) => scan.intact && scan.steady && scan.contents == contents,
            Source::Table(number) => scan::stored_table(
                setup,
                stored,
                verify,
                steady,
                number,
            ) matches Some(table) && scan.contents == table.contents && scan.intact == table.intact,
            Source::Level(files) => scan.contents == scan::level_scan(
                setup,
                stored,
                verify,
                steady,
                files,
            ).contents && scan.intact == scan::level_scan(
                setup,
                stored,
                verify,
                steady,
                files,
            ).intact,
        },
        steady && scan.intact ==> scan.steady,
{
}

} // verus!
