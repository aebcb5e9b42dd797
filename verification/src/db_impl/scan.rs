//! Iterators over a database.

use vstd::prelude::*;

use std::sync::Arc;

use crate::block::data::Block;
use crate::cache::Cache;
use crate::comparator;
use crate::comparator::Comparator;
use crate::db_impl::enter;
use crate::db_impl::entry_sort;
use crate::db_impl::level_iter;
use crate::db_impl::level_iter::LevelIterator;
use crate::db_impl::level_iter::OpenTables;
use crate::db_impl::options::ReadOptions;
use crate::db_impl::sizes;
use crate::db_impl::state::DBImplCore;
use crate::db_iter::db_iterator;
use crate::db_iter::db_iterator::DbIterator;
use crate::db_iter::db_iterator::Scan;
use crate::db_iter::entries_iter::EntriesIterator;
use crate::db_iter::DBIter;
use crate::env::Env;
use crate::env::RandomAccessFile;
use crate::filter::FilterPolicy;
use crate::format::InternalKeyComparator;
use crate::memtable::SharedMemTable;
use crate::merging_iter;
use crate::merging_iter::MergingIterator;
use crate::status;
use crate::table::reader::OpenRead;
use crate::table::table_iterator;
use crate::table::Compressor;
use crate::table::Table;
use crate::table::TableIterator;
use crate::table_cache;
use crate::table_cache::TableCache;
use crate::table_cache::TableSetup;
use crate::two_level_iter;
use crate::two_level_iter::BlockFunction;
use crate::version_set::FileMetaData;

verus! {

/// Something that an iterator over a database runs over.
pub enum Source {
    /// The entries of a memtable.
    Memory(Map<Seq<u8>, Seq<u8>>),
    /// The table of a number.
    Table(u64),
    /// The tables of a level.
    Level(Seq<FileMetaData>),
}

/// The tables of the first level: each is a source of its own, as they overlap.
pub open spec fn first_level_sources(files: Seq<FileMetaData>) -> Seq<Source> {
    Seq::new(files.len(), |i: int| Source::Table(files[i].number))
}

/// The levels behind the first that have tables, up to `count`.
pub open spec fn level_sources(levels: Seq<Vec<FileMetaData>>, count: nat) -> Seq<Source>
    decreases count,
{
    if count <= 1 {
        Seq::empty()
    } else {
        let front = level_sources(levels, (count - 1) as nat);
        if levels[count - 1]@.len() > 0 {
            front.push(Source::Level(levels[count - 1]@))
        } else {
            front
        }
    }
}

/// All sources: memory first, then the tables.
pub open spec fn sources_of(
    memory: Seq<Map<Seq<u8>, Seq<u8>>>,
    levels: Seq<Vec<FileMetaData>>,
) -> Seq<Source> {
    Seq::new(memory.len(), |i: int| Source::Memory(memory[i])) + (if levels.len() > 0 {
        first_level_sources(levels[0]@)
    } else {
        Seq::empty()
    }) + level_sources(levels, levels.len())
}

/// Whether the table of a number can be opened.
pub open spec fn can_open<C: Comparator, P: FilterPolicy, Z: Compressor>(
    setup: TableSetup<C, P, Z>,
    stored: Map<Seq<char>, Seq<u8>>,
    number: u64,
) -> bool {
    let path = table_cache::table_path(stored, setup.dbname, number);
    stored.contains_key(path) && setup.opening(stored[path]) is Opened
}

/// What the table of a number holds; `None` where it cannot be opened. `steady` tells
/// whether files can always be read.
pub open spec fn stored_table<C: Comparator, P: FilterPolicy, Z: Compressor>(
    setup: TableSetup<C, P, Z>,
    stored: Map<Seq<char>, Seq<u8>>,
    verify: bool,
    steady: bool,
    number: u64,
) -> Option<Scan> {
    let path = table_cache::table_path(stored, setup.dbname, number);
    if !stored.contains_key(path) {
        None
    } else {
        match setup.opening(stored[path]) {
            OpenRead::Opened { footer: _, index } => {
                let scan = table_iterator::table_scan(
                    setup.comparator,
                    stored[path],
                    setup.compressor,
                    index,
                    verify,
                    steady,
                );
                Some(Scan { steady: steady && scan.intact, ..scan })
            },
            _ => None,
        }
    }
}

/// What the tables of some files hold, by their numbers.
pub open spec fn level_tables<C: Comparator, P: FilterPolicy, Z: Compressor>(
    setup: TableSetup<C, P, Z>,
    stored: Map<Seq<char>, Seq<u8>>,
    verify: bool,
    steady: bool,
    files: Seq<FileMetaData>,
) -> spec_fn(u64) -> Option<Scan> {
    |number: u64|
        if has_file(files, number) {
            stored_table(setup, stored, verify, steady, number)
        } else {
            None
        }
}

/// What the iterator over a level runs over: the entries of its tables, in the order of
/// the files.
pub open spec fn level_scan<C: Comparator, P: FilterPolicy, Z: Compressor>(
    setup: TableSetup<InternalKeyComparator<C>, P, Z>,
    stored: Map<Seq<char>, Seq<u8>>,
    verify: bool,
    steady: bool,
    files: Seq<FileMetaData>,
) -> Scan {
    let index = Scan {
        contents: db_iterator::map_of(level_iter::level_index(files)),
        before: comparator::order_of(setup.comparator),
        admits: comparator::domain_of(setup.comparator),
        intact: db_iterator::sorted(setup.comparator, level_iter::level_index(files)),
        steady: true,
        current: None,
        failure: None,
    };
    let blocks = level_iter::level_blocks(
        comparator::domain_of(setup.comparator),
        level_tables(setup, stored, verify, steady, files),
    );
    Scan {
        contents: two_level_iter::all_blocks(blocks, index.contents),
        before: index.before,
        admits: index.admits,
        intact: two_level_iter::joint(blocks, index),
        steady: steady,
        current: None,
        failure: None,
    }
}

/// Whether a file has the given number.
pub open spec fn has_file(files: Seq<FileMetaData>, number: u64) -> bool {
    exists|i: int| 0 <= i < files.len() && (#[trigger] files[i]).number == number
}

/// Whether an iterator runs over a source, and where files can always be read, can always
/// be read itself.
pub open spec fn runs_over<C: Comparator, P: FilterPolicy, Z: Compressor>(
    setup: TableSetup<InternalKeyComparator<C>, P, Z>,
    stored: Map<Seq<char>, Seq<u8>>,
    verify: bool,
    steady: bool,
    source: Source,
    scan: Scan,
) -> bool {
    &&& match source {
        Source::Memory(contents) => scan.contents == contents && scan.intact && scan.steady,
        Source::Table(number) => stored_table(
            setup,
            stored,
            verify,
            steady,
            number,
        ) matches Some(table) && scan.alike(table),
        Source::Level(files) => scan.alike(level_scan(setup, stored, verify, steady, files)),
    }
    &&& steady && scan.intact ==> scan.steady
}

/// Whether iterators run over all sources.
pub open spec fn run_over_all<C: Comparator, P: FilterPolicy, Z: Compressor>(
    setup: TableSetup<InternalKeyComparator<C>, P, Z>,
    stored: Map<Seq<char>, Seq<u8>>,
    verify: bool,
    steady: bool,
    sources: Seq<Source>,
    scans: Seq<Scan>,
) -> bool {
    &&& scans.len() == sources.len()
    &&& forall|i: int|
        #![trigger scans[i]]
        0 <= i < scans.len() ==> runs_over(setup, stored, verify, steady, sources[i], scans[i])
}

/// Whether a scan merges others.
pub open spec fn merges<C: Comparator>(order: C, scans: Seq<Scan>, whole: Scan) -> bool {
    let contents = Seq::new(scans.len(), |i: int| scans[i].contents);
    &&& whole.contents == merging_iter::merged(contents)
    &&& whole.before == comparator::order_of(order)
    &&& whole.admits == comparator::short_domain_of(order)
    &&& whole.intact == ((forall|i: int|
        0 <= i < scans.len() ==> (#[trigger] scans[i]).intact) && merging_iter::disjoint(
        order,
        contents,
    ))
    &&& whole.steady == (forall|i: int| 0 <= i < scans.len() ==> (#[trigger] scans[i]).steady)
}

/// Whether iterators can be merged.
spec fn are_children<C: Comparator>(
    order: InternalKeyComparator<C>,
    children: Seq<Box<dyn DbIterator>>,
) -> bool {
    forall|i: int|
        0 <= i < children.len() ==> {
            &&& (#[trigger] children[i]).wf()
            &&& children[i].scan().failure is None
            &&& children[i].scan().before == comparator::order_of(order)
            &&& forall|key: Seq<u8>|
                comparator::short_domain_of(order)(key) ==> #[trigger] (children[i].scan().admits)(
                    key,
                )
        }
}

/// What the iterators stand for.
spec fn scans_of(children: Seq<Box<dyn DbIterator>>) -> Seq<Scan> {
    Seq::new(children.len(), |i: int| children[i].scan())
}

/// Adds an iterator over entries.
fn push_entries<C: Comparator + 'static>(
    children: &mut Vec<Box<dyn DbIterator>>,
    child: EntriesIterator<InternalKeyComparator<C>>,
    order: &InternalKeyComparator<C>,
)
    requires
        are_children(*order, old(children)@),
        child.wf(),
        child.scan().failure is None,
        child.scan().before == comparator::order_of(*order),
        child.scan().admits == comparator::domain_of(*order),
    ensures
        are_children(*order, final(children)@),
        scans_of(final(children)@) == scans_of(old(children)@).push(child.scan()),
{
    let ghost before = children@;
    let ghost scan = child.scan();
    let boxed = Box::new(child);
    let ghost added = boxed;
    children.push(boxed);
    proof {
        vstd::seq::axiom_seq_push_len(before, added);
        vstd::seq::axiom_seq_push_index_same(before, added, before.len() as int);
        assert(children@[before.len() as int].scan() == scan);
        assert forall|i: int| 0 <= i < before.len() implies #[trigger] children@[i].scan()
            == before[i].scan() && children@[i].wf() == before[i].wf() by {
            vstd::seq::axiom_seq_push_index_different(before, added, i);
        }
        assert(scans_of(children@) =~= scans_of(before).push(scan));
    }
}

/// Adds an iterator over a table.
fn push_table<
    C: Comparator + 'static,
    F: RandomAccessFile + 'static,
    P: FilterPolicy + 'static,
    Z: Compressor + 'static,
>(
    children: &mut Vec<Box<dyn DbIterator>>,
    child: TableIterator<InternalKeyComparator<C>, F, P, Z>,
    order: &InternalKeyComparator<C>,
)
    requires
        are_children(*order, old(children)@),
        child.wf(),
        child.scan().failure is None,
        child.scan().before == comparator::order_of(*order),
        child.scan().admits == comparator::domain_of(*order),
    ensures
        are_children(*order, final(children)@),
        scans_of(final(children)@) == scans_of(old(children)@).push(child.scan()),
{
    let ghost before = children@;
    let ghost scan = child.scan();
    let boxed = Box::new(child);
    let ghost added = boxed;
    children.push(boxed);
    proof {
        vstd::seq::axiom_seq_push_len(before, added);
        vstd::seq::axiom_seq_push_index_same(before, added, before.len() as int);
        assert(children@[before.len() as int].scan() == scan);
        assert forall|i: int| 0 <= i < before.len() implies #[trigger] children@[i].scan()
            == before[i].scan() && children@[i].wf() == before[i].wf() by {
            vstd::seq::axiom_seq_push_index_different(before, added, i);
        }
        assert(scans_of(children@) =~= scans_of(before).push(scan));
    }
}

/// Adds an iterator over a level.
fn push_level<
    C: Comparator + 'static,
    F: RandomAccessFile + 'static,
    P: FilterPolicy + 'static,
    Z: Compressor + 'static,
>(
    children: &mut Vec<Box<dyn DbIterator>>,
    child: LevelIterator<C, OpenTables<InternalKeyComparator<C>, F, P, Z>>,
    order: &InternalKeyComparator<C>,
)
    requires
        are_children(*order, old(children)@),
        child.wf(),
        child.scan().failure is None,
        child.scan().before == comparator::order_of(*order),
        child.scan().admits == comparator::domain_of(*order),
    ensures
        are_children(*order, final(children)@),
        scans_of(final(children)@) == scans_of(old(children)@).push(child.scan()),
{
    let ghost before = children@;
    let ghost scan = child.scan();
    let boxed = Box::new(child);
    let ghost added = boxed;
    children.push(boxed);
    proof {
        vstd::seq::axiom_seq_push_len(before, added);
        vstd::seq::axiom_seq_push_index_same(before, added, before.len() as int);
        assert(children@[before.len() as int].scan() == scan);
        assert forall|i: int| 0 <= i < before.len() implies #[trigger] children@[i].scan()
            == before[i].scan() && children@[i].wf() == before[i].wf() by {
            vstd::seq::axiom_seq_push_index_different(before, added, i);
        }
        assert(scans_of(children@) =~= scans_of(before).push(scan));
    }
}

/// Adds an iterator over the entries of a memtable.
fn push_memtable<C: Comparator + 'static>(
    children: &mut Vec<Box<dyn DbIterator>>,
    mem: &SharedMemTable<C>,
    order: &InternalKeyComparator<C>,
) -> (scan: Ghost<Scan>)
    requires
        mem.table().wf(),
        mem.table().order() == *order,
        are_children(*order, old(children)@),
    ensures
        are_children(*order, final(children)@),
        scans_of(final(children)@) == scans_of(old(children)@).push(scan@),
        scan@.contents == enter::mem_contents(*mem),
        scan@.intact,
        scan@.steady,
        scan@.failure is None,
{
    let entries = mem.collect_entries();
    proof {
        mem.table().lemma_sorted();
        assert(table_iterator::pair_views(entries@) =~= mem.table().entries());
    }
    let iter = EntriesIterator::new(comparator::copy_of(order), entries);
    proof {
        iter.lemma_scan();
    }
    let ghost scan = iter.scan();
    push_entries(children, iter, order);
    Ghost(scan)
}

/// Adds an iterator over the table of a number.
fn push_table_of<
    C: Comparator + 'static,
    E: Env,
    P: FilterPolicy + 'static,
    Z: Compressor + 'static,
    B: Cache<Arc<Block>>,
>(
    children: &mut Vec<Box<dyn DbIterator>>,
    table_cache: &mut TableCache<InternalKeyComparator<C>, E, P, Z, B>,
    env: &E,
    number: u64,
    verify: bool,
    order: &InternalKeyComparator<C>,
) -> (outcome: (status::Result<()>, Ghost<Scan>)) where E::RandomAccess: 'static
    requires
        are_children(*order, old(children)@),
        old(table_cache).wf(),
        old(table_cache).agrees(*env),
        old(table_cache).setup().comparator == *order,
        old(table_cache).has_ids(),
        env.wf(),
    ensures
        final(table_cache).wf(),
        final(table_cache).agrees(*env),
        final(table_cache).setup() == old(table_cache).setup(),
        final(table_cache).blocks().issued() <= old(table_cache).blocks().issued() + 1,
        are_children(*order, final(children)@),
        outcome.0 is Ok ==> scans_of(final(children)@) == scans_of(old(children)@).push(
            outcome.1@,
        ),
        outcome.0 is Err ==> final(children)@ == old(children)@,
        outcome.0 is Ok && table_cache::name_is_known(
            *env,
            old(table_cache).setup().dbname,
            number,
        ) ==> runs_over(
            old(table_cache).setup(),
            env.files(),
            verify,
            env.reliable(),
            Source::Table(number),
            outcome.1@,
        ),
        env.reliable() ==> outcome.0 is Ok == can_open(
            old(table_cache).setup(),
            env.files(),
            number,
        ),
{
    let ghost setup = table_cache.setup();
    match table_cache.new_iterator_verify(env, number, verify) {
        Err(error) => (
            Err(error),
            Ghost(
                Scan {
                    contents: Map::empty(),
                    before: comparator::order_of(*order),
                    admits: comparator::domain_of(*order),
                    intact: true,
                    steady: true,
                    current: None,
                    failure: None,
                },
            ),
        ),
        Ok(iter) => {
            let ghost scan = iter.scan();
            proof {
                iter.lemma_scan();
            }
            push_table(children, iter, order);
            (Ok(()), Ghost(scan))
        },
    }
}

/// Adds an iterator over each table of the first level.
fn push_first_level<
    C: Comparator + 'static,
    E: Env,
    P: FilterPolicy + 'static,
    Z: Compressor + 'static,
    B: Cache<Arc<Block>>,
>(
    children: &mut Vec<Box<dyn DbIterator>>,
    table_cache: &mut TableCache<InternalKeyComparator<C>, E, P, Z, B>,
    env: &E,
    files: &Vec<FileMetaData>,
    verify: bool,
    order: &InternalKeyComparator<C>,
) -> (outcome: (status::Result<()>, Ghost<Seq<Scan>>)) where E::RandomAccess: 'static
    requires
        are_children(*order, old(children)@),
        old(table_cache).wf(),
        old(table_cache).agrees(*env),
        old(table_cache).setup().comparator == *order,
        old(table_cache).blocks().issued() + files@.len() <= u64::MAX,
        env.wf(),
    ensures
        final(table_cache).wf(),
        final(table_cache).agrees(*env),
        final(table_cache).setup() == old(table_cache).setup(),
        final(table_cache).blocks().issued() <= old(table_cache).blocks().issued() + files@.len(),
        are_children(*order, final(children)@),
        scans_of(final(children)@) == scans_of(old(children)@) + outcome.1@,
        outcome.0 is Ok && sizes::all_known(*env, old(table_cache).setup().dbname, files@) ==> run_over_all(
            old(table_cache).setup(),
            env.files(),
            verify,
            env.reliable(),
            first_level_sources(files@),
            outcome.1@,
        ),
        env.reliable() ==> outcome.0 is Ok == (forall|i: int|
            0 <= i < files@.len() ==> can_open(
                old(table_cache).setup(),
                env.files(),
                (#[trigger] files@[i]).number,
            )),
{
    let ghost setup = table_cache.setup();
    let ghost start = scans_of(children@);
    let ghost mut scans: Seq<Scan> = Seq::empty();
    let mut index: usize = 0;
    assert(start + scans =~= start);
    while index < files.len()
        invariant
            index <= files@.len(),
            start == scans_of(old(children)@),
            are_children(*order, children@),
            scans_of(children@) == start + scans,
            scans.len() == index,
            table_cache.wf(),
            table_cache.agrees(*env),
            table_cache.setup() == setup,
            setup == old(table_cache).setup(),
            setup.comparator == *order,
            table_cache.blocks().issued() <= old(table_cache).blocks().issued() + index,
            old(table_cache).blocks().issued() + files@.len() <= u64::MAX,
            env.wf(),
            sizes::all_known(*env, setup.dbname, files@) ==> forall|i: int|
                #![trigger scans[i]]
                0 <= i < index ==> runs_over(
                    setup,
                    env.files(),
                    verify,
                    env.reliable(),
                    Source::Table(files@[i].number),
                    scans[i],
                ),
            env.reliable() ==> forall|i: int|
                0 <= i < index ==> can_open(setup, env.files(), (#[trigger] files@[i]).number),
        decreases files@.len() - index,
    {
        let number: u64 = files[index].number;
        assert(files@[index as int].number == number);
        let (outcome, Ghost(scan)) = push_table_of(
            children,
            table_cache,
            env,
            number,
            verify,
            order,
        );
        match outcome {
            Err(error) => {
                return (Err(error), Ghost(scans));
            },
            Ok(_) => {},
        }
        proof {
            let before = scans;
            scans = scans.push(scan);
            assert(start + scans =~= (start + before).push(scan));
        }
        index = index + 1;
    }
    proof {
        let sources = first_level_sources(files@);
        assert(forall|i: int|
            #![trigger scans[i]]
            0 <= i < scans.len() ==> sources[i] == Source::Table(files@[i].number));
    }
    (Ok(()), Ghost(scans))
}

/// Opens the tables of a level, as far as they can be.
fn open_level<
    C: Comparator + 'static,
    E: Env,
    P: FilterPolicy,
    Z: Compressor,
    B: Cache<Arc<Block>>,
>(
    table_cache: &mut TableCache<C, E, P, Z, B>,
    env: &E,
    files: &Vec<FileMetaData>,
    Ghost(verify): Ghost<bool>,
) -> (tables: Vec<(u64, status::Result<Arc<Table<C, E::RandomAccess, P, Z>>>)>)
    requires
        old(table_cache).wf(),
        old(table_cache).agrees(*env),
        old(table_cache).blocks().issued() + files@.len() <= u64::MAX,
        env.wf(),
    ensures
        final(table_cache).wf(),
        final(table_cache).agrees(*env),
        final(table_cache).setup() == old(table_cache).setup(),
        final(table_cache).blocks().issued() <= old(table_cache).blocks().issued() + files@.len(),
        sizes::all_known(*env, old(table_cache).setup().dbname, files@) ==> level_iter::all_open_with(
            old(table_cache).setup().comparator,
            tables@,
            verify,
            level_tables(
                old(table_cache).setup(),
                env.files(),
                verify,
                env.reliable(),
                files@,
            ),
        ),
        level_iter::all_open_with(
            old(table_cache).setup().comparator,
            tables@,
            verify,
            |number: u64| None,
        ),
        env.reliable() ==> level_iter::all_held(
            tables@,
            level_tables(
                old(table_cache).setup(),
                env.files(),
                verify,
                env.reliable(),
                files@,
            ),
        ),
{
    let ghost setup = table_cache.setup();
    let ghost holdings = level_tables(setup, env.files(), verify, env.reliable(), files@);
    let mut tables: Vec<(u64, status::Result<Arc<Table<C, E::RandomAccess, P, Z>>>)> = Vec::new();
    let mut index: usize = 0;
    while index < files.len()
        invariant
            index <= files@.len(),
            tables@.len() == index,
            table_cache.wf(),
            table_cache.agrees(*env),
            table_cache.setup() == setup,
            setup == old(table_cache).setup(),
            table_cache.blocks().issued() <= old(table_cache).blocks().issued() + index,
            old(table_cache).blocks().issued() + files@.len() <= u64::MAX,
            env.wf(),
            holdings == level_tables(setup, env.files(), verify, env.reliable(), files@),
            sizes::all_known(*env, setup.dbname, files@) ==> level_iter::all_open_with(
                setup.comparator,
                tables@,
                verify,
                holdings,
            ),
            level_iter::all_open_with(setup.comparator, tables@, verify, |number: u64| None),
            forall|i: int|
                0 <= i < index ==> {
                    &&& (#[trigger] tables@[i]).0 == files@[i].number
                    &&& env.reliable() && holdings(tables@[i].0) is Some ==> tables@[i].1 is Ok
                },
        decreases files@.len() - index,
    {
        let number: u64 = files[index].number;
        assert(files@[index as int].number == number);
        let opened = table_cache.table(env, number);
        tables.push((number, opened));
        index = index + 1;
    }
    proof {
        if env.reliable() {
            assert forall|number: u64| #[trigger] holdings(number) is Some implies (
            level_iter::place_of(tables@, number, 0) matches Some(place)
                && tables@[place].1 is Ok) by {
                let i = choose|i: int|
                    0 <= i < files@.len() && (#[trigger] files@[i]).number == number;
                assert(tables@[i].0 == number);
                lemma_place_found(tables@, number, 0, i);
            }
        }
    }
    tables
}

/// A table that is there is found.
proof fn lemma_place_found<C: Comparator, F: RandomAccessFile, P: FilterPolicy, Z: Compressor>(
    tables: Seq<(u64, status::Result<Arc<Table<C, F, P, Z>>>)>,
    number: u64,
    from: int,
    at: int,
)
    requires
        0 <= from <= at < tables.len(),
        tables[at].0 == number,
    ensures
        level_iter::place_of(tables, number, from) matches Some(place) && from <= place
            < tables.len() && tables[place].0 == number,
    decreases at - from,
{
    if tables[from].0 != number {
        lemma_place_found(tables, number, from + 1, at);
    }
}

/// Adds an iterator over each level behind the first that has tables.
fn push_levels<
    C: Comparator + 'static,
    E: Env,
    P: FilterPolicy + 'static,
    Z: Compressor + 'static,
    B: Cache<Arc<Block>>,
>(
    children: &mut Vec<Box<dyn DbIterator>>,
    table_cache: &mut TableCache<InternalKeyComparator<C>, E, P, Z, B>,
    env: &E,
    levels: &Vec<Vec<FileMetaData>>,
    verify: bool,
    order: &InternalKeyComparator<C>,
) -> (added: Ghost<Seq<Scan>>) where E::RandomAccess: 'static
    requires
        are_children(*order, old(children)@),
        old(table_cache).wf(),
        old(table_cache).agrees(*env),
        old(table_cache).setup().comparator == *order,
        levels@.len() > 0,
        old(table_cache).blocks().issued() + (sizes::file_count(levels@, levels@.len())
            - levels@[0]@.len()) <= u64::MAX,
        sizes::bounds_admitted(*order, levels@),
        env.wf(),
    ensures
        final(table_cache).wf(),
        final(table_cache).agrees(*env),
        final(table_cache).setup() == old(table_cache).setup(),
        are_children(*order, final(children)@),
        scans_of(final(children)@) == scans_of(old(children)@) + added@,
        sizes::levels_known(*env, old(table_cache).setup().dbname, levels@) ==> run_over_all(
            old(table_cache).setup(),
            env.files(),
            verify,
            env.reliable(),
            level_sources(levels@, levels@.len()),
            added@,
        ),
{
    let ghost setup = table_cache.setup();
    let ghost start = scans_of(children@);
    let ghost mut scans: Seq<Scan> = Seq::empty();
    let mut level: usize = 1;
    proof {
        assert(start + scans =~= start);
        reveal_with_fuel(sizes::file_count, 2);
    }
    while level < levels.len()
        invariant
            1 <= level <= levels@.len(),
            start == scans_of(old(children)@),
            are_children(*order, children@),
            scans_of(children@) == start + scans,
            table_cache.wf(),
            table_cache.agrees(*env),
            table_cache.setup() == setup,
            setup == old(table_cache).setup(),
            setup.comparator == *order,
            table_cache.blocks().issued() <= old(table_cache).blocks().issued() + (
            sizes::file_count(levels@, level as nat) - levels@[0]@.len()),
            old(table_cache).blocks().issued() + (sizes::file_count(levels@, levels@.len())
                - levels@[0]@.len()) <= u64::MAX,
            sizes::bounds_admitted(*order, levels@),
            env.wf(),
            sizes::levels_known(*env, setup.dbname, levels@) ==> run_over_all(
                setup,
                env.files(),
                verify,
                env.reliable(),
                level_sources(levels@, level as nat),
                scans,
            ),
        decreases levels@.len() - level,
    {
        let files = &levels[level];
        let ghost before = scans;
        proof {
            sizes::lemma_file_count(levels@, level as nat + 1, levels@.len());
        }
        if files.len() > 0 {
            let tables = open_level(table_cache, env, files, Ghost(verify));
            let ghost holdings = if sizes::all_known(*env, setup.dbname, files@) {
                level_tables(setup, env.files(), verify, env.reliable(), files@)
            } else {
                |number: u64| None
            };
            let opener = OpenTables::new(
                comparator::copy_of(order),
                tables,
                verify,
                Ghost(holdings),
            );
            let ghost opened = opener;
            proof {
                assert forall|i: int| 0 <= i < files@.len() implies order.admits(
                    #[trigger] level_iter::level_index(files@)[i].0,
                ) by {
                    assert(order.admits(levels@[level as int]@[i].largest@));
                }
            }
            let iter = LevelIterator::new(files, comparator::copy_of(order), opener);
            let ghost scan = iter.scan();
            proof {
                iter.lemma_scan();
                two_level_iter::lemma_same_joint(
                    iter.function().blocks(),
                    iter.level(),
                    Scan {
                        contents: db_iterator::map_of(level_iter::level_index(files@)),
                        before: comparator::order_of(*order),
                        admits: comparator::domain_of(*order),
                        intact: db_iterator::sorted(*order, level_iter::level_index(files@)),
                        steady: true,
                        current: None,
                        failure: None,
                    },
                );
                if sizes::levels_known(*env, setup.dbname, levels@) {
                    assert(sizes::all_known(*env, setup.dbname, levels@[level as int]@));
                    assert(scan.alike(
                        level_scan(setup, env.files(), verify, env.reliable(), files@),
                    ));
                    assert(runs_over(
                        setup,
                        env.files(),
                        verify,
                        env.reliable(),
                        Source::Level(files@),
                        scan,
                    ));
                }
            }
            push_level(children, iter, order);
            proof {
                scans = scans.push(scan);
                assert(start + scans =~= (start + before).push(scan));
                if sizes::levels_known(*env, setup.dbname, levels@) {
                    lemma_run_over_more(
                        setup,
                        env.files(),
                        verify,
                        env.reliable(),
                        level_sources(levels@, level as nat),
                        before,
                        Source::Level(files@),
                        scan,
                    );
                }
            }
        }
        level = level + 1;
    }
    Ghost(scans)
}

proof fn lemma_run_over_more<C: Comparator, P: FilterPolicy, Z: Compressor>(
    setup: TableSetup<InternalKeyComparator<C>, P, Z>,
    stored: Map<Seq<char>, Seq<u8>>,
    verify: bool,
    steady: bool,
    sources: Seq<Source>,
    scans: Seq<Scan>,
    source: Source,
    scan: Scan,
)
    requires
        run_over_all(setup, stored, verify, steady, sources, scans),
        runs_over(setup, stored, verify, steady, source, scan),
    ensures
        run_over_all(
            setup,
            stored,
            verify,
            steady,
            sources.push(source),
            scans.push(scan),
        ),
{
    let more = scans.push(scan);
    assert forall|i: int|
        #![trigger more[i]]
        0 <= i < more.len() implies runs_over(
        setup,
        stored,
        verify,
        steady,
        sources.push(source)[i],
        more[i],
    ) by {
        if i < scans.len() {
            assert(more[i] == scans[i]);
        }
    }
}

proof fn lemma_run_over_both<C: Comparator, P: FilterPolicy, Z: Compressor>(
    setup: TableSetup<InternalKeyComparator<C>, P, Z>,
    stored: Map<Seq<char>, Seq<u8>>,
    verify: bool,
    steady: bool,
    sources: Seq<Source>,
    scans: Seq<Scan>,
    more_sources: Seq<Source>,
    more_scans: Seq<Scan>,
)
    requires
        run_over_all(setup, stored, verify, steady, sources, scans),
        run_over_all(setup, stored, verify, steady, more_sources, more_scans),
    ensures
        run_over_all(
            setup,
            stored,
            verify,
            steady,
            sources + more_sources,
            scans + more_scans,
        ),
{
    let all = scans + more_scans;
    assert forall|i: int|
        #![trigger all[i]]
        0 <= i < all.len() implies runs_over(
        setup,
        stored,
        verify,
        steady,
        (sources + more_sources)[i],
        all[i],
    ) by {
        if i < scans.len() {
            assert(all[i] == scans[i]);
        } else {
            assert(all[i] == more_scans[i - scans.len()]);
        }
    }
}

impl<C: Comparator + 'static> DBImplCore<C> {
    /// What the memtables hold.
    pub open spec fn memory(&self) -> Seq<Map<Seq<u8>, Seq<u8>>> {
        match self.imm {
            None => seq![enter::mem_contents(self.mem)],
            Some(imm) => seq![enter::mem_contents(self.mem), enter::mem_contents(imm)],
        }
    }

    /// Whether a scan runs over all entries of the database, in memory and in tables. Where
    /// files cannot always be read, moves may fail, and tell so.
    pub open spec fn is_whole<P: FilterPolicy, Z: Compressor>(
        &self,
        setup: TableSetup<InternalKeyComparator<C>, P, Z>,
        stored: Map<Seq<char>, Seq<u8>>,
        levels: Seq<Vec<FileMetaData>>,
        verify: bool,
        steady: bool,
        whole: Scan,
    ) -> bool {
        exists|scans: Seq<Scan>| #[trigger]
            run_over_all(
                setup,
                stored,
                verify,
                steady,
                sources_of(self.memory(), levels),
                scans,
            ) && merges(InternalKeyComparator::over(self.comparator), scans, whole)
    }

    /// An iterator over all entries, with the values that are hidden and the deletions.
    /// `levels` holds the tables by level. It fails only where a table of the first
    /// level cannot be opened.
    pub fn new_internal_iterator<
        E: Env,
        P: FilterPolicy + 'static,
        Z: Compressor + 'static,
        B: Cache<Arc<Block>>,
    >(
        &self,
        table_cache: &mut TableCache<InternalKeyComparator<C>, E, P, Z, B>,
        env: &E,
        levels: &Vec<Vec<FileMetaData>>,
        verify: bool,
    ) -> (made: status::Result<MergingIterator<InternalKeyComparator<C>>>) where
        E::RandomAccess: 'static,

        requires
            self.sound(),
            levels@.len() > 0,
            old(table_cache).wf(),
            old(table_cache).agrees(*env),
            old(table_cache).setup().comparator == InternalKeyComparator::over(self.comparator),
            old(table_cache).blocks().issued() + sizes::file_count(levels@, levels@.len())
                <= u64::MAX,
            sizes::bounds_admitted(InternalKeyComparator::over(self.comparator), levels@),
            env.wf(),
        ensures
            final(table_cache).wf(),
            final(table_cache).agrees(*env),
            final(table_cache).setup() == old(table_cache).setup(),
            made matches Ok(iter) ==> {
                &&& iter.wf()
                &&& iter.order() == InternalKeyComparator::over(self.comparator)
                &&& iter.scan().current is None
                &&& iter.scan().failure is None
                &&& sizes::levels_known(
                    *env,
                    old(table_cache).setup().dbname,
                    levels@,
                ) ==> self.is_whole(
                    old(table_cache).setup(),
                    env.files(),
                    levels@,
                    verify,
                    env.reliable(),
                    iter.scan(),
                )
            },
            env.reliable() ==> made is Ok == (forall|i: int|
                0 <= i < levels@[0]@.len() ==> can_open(
                    old(table_cache).setup(),
                    env.files(),
                    (#[trigger] levels@[0]@[i]).number,
                )),
    {
        let ghost setup = table_cache.setup();
        let ghost memory = self.memory();
        let order = InternalKeyComparator::new(comparator::copy_of(&self.comparator));
        proof {
            order.lemma_is_over();
            self.mem.table().order().lemma_is_over();
            sizes::lemma_file_count(levels@, 1, levels@.len());
            reveal_with_fuel(sizes::file_count, 2);
        }
        let mut children: Vec<Box<dyn DbIterator>> = Vec::new();
        assert(scans_of(children@) =~= Seq::<Scan>::empty());
        let ghost mut scans: Seq<Scan> = Seq::empty();
        let Ghost(first) = push_memtable(&mut children, &self.mem, &order);
        proof {
            scans = scans.push(first);
        }
        match &self.imm {
            None => {},
            Some(imm) => {
                proof {
                    imm.table().order().lemma_is_over();
                }
                let Ghost(second) = push_memtable(&mut children, imm, &order);
                proof {
                    scans = scans.push(second);
                }
            },
        }
        let ghost sources = Seq::new(memory.len(), |i: int| Source::Memory(memory[i]));
        proof {
            assert forall|i: int|
                #![trigger scans[i]]
                0 <= i < scans.len() implies runs_over(
                setup,
                env.files(),
                verify,
                env.reliable(),
                sources[i],
                scans[i],
            ) by {
                assert(sources[i] == Source::Memory(memory[i]));
            }
            assert(run_over_all(
                setup,
                env.files(),
                verify,
                env.reliable(),
                sources,
                scans,
            ));
        }
        let (outcome, Ghost(tables)) = push_first_level(
            &mut children,
            table_cache,
            env,
            &levels[0],
            verify,
            &order,
        );
        match outcome {
            Err(error) => {
                return Err(error);
            },
            Ok(_) => {},
        }
        let Ghost(deeper) = push_levels(
            &mut children,
            table_cache,
            env,
            levels,
            verify,
            &order,
        );
        let ghost all = scans + tables + deeper;
        proof {
            if sizes::levels_known(*env, setup.dbname, levels@) {
                assert(sizes::all_known(*env, setup.dbname, levels@[0]@));
                lemma_run_over_both(
                    setup,
                    env.files(),
                    verify,
                    env.reliable(),
                    sources,
                    scans,
                    first_level_sources(levels@[0]@),
                    tables,
                );
                lemma_run_over_both(
                    setup,
                    env.files(),
                    verify,
                    env.reliable(),
                    sources + first_level_sources(levels@[0]@),
                    scans + tables,
                    level_sources(levels@, levels@.len()),
                    deeper,
                );
            }
        }
        let iter = MergingIterator::new(order, children);
        proof {
            iter.lemma_scan();
            assert(iter.scans() =~= all);
            assert(merges(order, all, iter.scan()));
            assert(sources_of(memory, levels@) =~= sources + first_level_sources(levels@[0]@)
                + level_sources(levels@, levels@.len()));
            if sizes::levels_known(*env, setup.dbname, levels@) {
                assert(run_over_all(
                    setup,
                    env.files(),
                    verify,
                    env.reliable(),
                    sources_of(self.memory(), levels@),
                    all,
                ));
            }
        }
        Ok(iter)
    }

    /// An iterator over what is seen of the database, at the snapshot of the options or
    /// else at the last update. `levels` holds the tables by level.
    pub fn new_iterator_with_options<
        E: Env,
        P: FilterPolicy + 'static,
        Z: Compressor + 'static,
        B: Cache<Arc<Block>>,
    >(
        &self,
        options: &ReadOptions,
        table_cache: &mut TableCache<InternalKeyComparator<C>, E, P, Z, B>,
        env: &E,
        levels: &Vec<Vec<FileMetaData>>,
        paranoid_checks: bool,
    ) -> (made: status::Result<DBIter<C, MergingIterator<InternalKeyComparator<C>>>>) where
        E::RandomAccess: 'static,

        requires
            self.sound(),
            self.read_sequence(*options) <= crate::format::MAX_SEQUENCE_NUMBER,
            levels@.len() > 0,
            old(table_cache).wf(),
            old(table_cache).agrees(*env),
            old(table_cache).setup().comparator == InternalKeyComparator::over(self.comparator),
            old(table_cache).blocks().issued() + sizes::file_count(levels@, levels@.len())
                <= u64::MAX,
            sizes::bounds_admitted(InternalKeyComparator::over(self.comparator), levels@),
            env.wf(),
        ensures
            final(table_cache).wf(),
            final(table_cache).agrees(*env),
            final(table_cache).setup() == old(table_cache).setup(),
            made matches Ok(iter) ==> {
                &&& iter.wf()
                &&& iter.user_order() == self.comparator
                &&& iter.at_sequence() == self.read_sequence(*options)
                &&& iter.scan().current is None
                &&& iter.scan().failure is None
                &&& sizes::levels_known(
                    *env,
                    old(table_cache).setup().dbname,
                    levels@,
                ) ==> self.is_whole(
                    old(table_cache).setup(),
                    env.files(),
                    levels@,
                    paranoid_checks || options.verify_checksums,
                    env.reliable(),
                    iter.inner(),
                )
            },
            env.reliable() ==> made is Ok == (forall|i: int|
                0 <= i < levels@[0]@.len() ==> can_open(
                    old(table_cache).setup(),
                    env.files(),
                    (#[trigger] levels@[0]@[i]).number,
                )),
    {
        let sequence: u64 = match &options.snapshot {
            Some(snapshot) => snapshot.sequence(),
            None => self.last_sequence,
        };
        let verify: bool = paranoid_checks || options.verify_checksums;
        match self.new_internal_iterator(table_cache, env, levels, verify) {
            Err(error) => Err(error),
            Ok(iter) => Ok(DBIter::new(comparator::copy_of(&self.comparator), iter, sequence)),
        }
    }
}

} // verus!
