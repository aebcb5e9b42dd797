//! Iterator over the tables of a level.
//!
//! The tables of a level but the first do not overlap. One iterator runs over the
//! tables by their last keys, another over the table that it stands on, which is opened
//! when it is needed.

use vstd::prelude::*;

use std::sync::Arc;

use crate::coding;
use crate::comparator;
use crate::comparator::Comparator;
use crate::db_impl::entry_sort;
use crate::db_iter::db_iterator;
use crate::db_iter::db_iterator::DbIterator;
use crate::db_iter::db_iterator::Scan;
use crate::db_iter::entries_iter::EntriesIterator;
use crate::env::RandomAccessFile;
use crate::filter::FilterPolicy;
use crate::format::InternalKeyComparator;
use crate::status;
use crate::status::Status;
use crate::table::draft;
use crate::table::table_builder;
use crate::table::table_iterator;
use crate::table::Compressor;
use crate::table::Table;
use crate::table::TableIterator;
use crate::two_level_iter;
use crate::two_level_iter::BlockFunction;
use crate::two_level_iter::Blocks;
use crate::two_level_iter::TwoLevelIterator;
use crate::version_set::FileMetaData;

verus! {

/// The index of a level: the last keys of its tables, and their numbers.
pub open spec fn level_index(files: Seq<FileMetaData>) -> Seq<db_iterator::Pair> {
    Seq::new(
        files.len(),
        |i: int| (files[i].largest@, coding::le_bytes(files[i].number as nat, 8)),
    )
}

/// Runs over the tables of a level.
pub struct LevelFileNumIter<C: Comparator> {
    inner: EntriesIterator<InternalKeyComparator<C>>,
}

impl<C: Comparator> LevelFileNumIter<C> {
    /// The index that it runs over.
    pub closed spec fn index(&self) -> Seq<db_iterator::Pair> {
        self.inner.entries()
    }

    /// The order of the keys.
    pub closed spec fn order(&self) -> InternalKeyComparator<C> {
        self.inner.order()
    }

    pub fn new(files: &Vec<FileMetaData>, comparator: InternalKeyComparator<C>) -> (iter: Self)
        requires
            entry_sort::all_comparable(comparator, level_index(files@)),
        ensures
            iter.wf(),
            iter.index() == level_index(files@),
            iter.order() == comparator,
            iter.scan().current is None,
            iter.scan().failure is None,
    {
        let ghost index = level_index(files@);
        let mut entries: Vec<(Vec<u8>, Vec<u8>)> = Vec::new();
        let mut at: usize = 0;
        while at < files.len()
            invariant
                at <= files@.len(),
                index == level_index(files@),
                entries@.len() == at,
                forall|i: int|
                    0 <= i < at ==> (#[trigger] entries@[i]).0@ == index[i].0 && entries@[i].1@
                        == index[i].1,
            decreases files@.len() - at,
        {
            let mut number: Vec<u8> = Vec::new();
            coding::put_fixed64(&mut number, files[at].number);
            assert(number@ =~= index[at as int].1);
            entries.push((vstd::slice::slice_to_vec(files[at].largest.as_slice()), number));
            at = at + 1;
        }
        assert(table_iterator::pair_views(entries@) =~= index);
        let inner = EntriesIterator::new(comparator, entries);
        proof {
            inner.lemma_scan();
        }
        LevelFileNumIter { inner }
    }

    /// What the iterator runs over.
    pub proof fn lemma_scan(&self)
        ensures
            self.scan().contents == db_iterator::map_of(self.index()),
            self.scan().before == comparator::order_of(self.order()),
            self.scan().admits == comparator::domain_of(self.order()),
            self.scan().intact == db_iterator::sorted(self.order(), self.index()),
            self.scan().steady,
    {
        self.inner.lemma_scan();
    }
}

impl<C: Comparator> DbIterator for LevelFileNumIter<C> {
    closed spec fn wf(&self) -> bool {
        self.inner.wf()
    }

    closed spec fn scan(&self) -> Scan {
        self.inner.scan()
    }

    fn valid(&self) -> (answer: bool) {
        self.inner.valid()
    }

    fn seek_to_first(&mut self) {
        self.inner.seek_to_first();
    }

    fn seek_to_last(&mut self) {
        self.inner.seek_to_last();
    }

    fn seek(&mut self, target: &[u8]) {
        self.inner.seek(target);
    }

    fn next(&mut self) {
        self.inner.next();
    }

    fn prev(&mut self) {
        self.inner.prev();
    }

    fn key(&self) -> (key: &[u8]) {
        self.inner.key()
    }

    fn value(&self) -> (value: &[u8]) {
        self.inner.value()
    }

    fn status(&self) -> (outcome: status::Result<()>) {
        self.inner.status()
    }
}

/// Opens tables by their numbers.
pub trait TableOpener {
    type Iter: DbIterator;

    /// What the table of each number holds; `None` where there is no sound table.
    spec fn table_sources(&self) -> spec_fn(u64) -> Option<Scan>;

    /// The keys that may be sought in a table.
    spec fn table_domain(&self) -> spec_fn(Seq<u8>) -> bool;

    /// Whether each sound table opens.
    spec fn all_open(&self) -> bool;

    fn open_table(&self, number: u64) -> (opened: status::Result<Self::Iter>)
        ensures
            opened matches Ok(iter) ==> iter.wf() && iter.scan().admits == self.table_domain()
                && iter.scan().failure is None,
            (self.table_sources())(number) matches Some(source) ==> {
                &&& self.all_open() ==> opened is Ok
                &&& opened matches Ok(iter) ==> iter.scan().alike(source) && (source.steady
                    ==> iter.scan().steady)
            },
    ;
}

/// The tables of some numbers, each open, or with the error that opening it gave.
pub struct OpenTables<C: Comparator, F: RandomAccessFile, P: FilterPolicy, Z: Compressor> {
    comparator: C,
    tables: Vec<(u64, status::Result<Arc<Table<C, F, P, Z>>>)>,
    verify: bool,
    /// What the table of each number holds, whether it could be opened or not.
    stored: Ghost<spec_fn(u64) -> Option<Scan>>,
}

/// Whether all tables that are open have the given order, and hold what is stored under
/// their numbers.
pub open spec fn all_open_with<
    C: Comparator,
    F: RandomAccessFile,
    P: FilterPolicy,
    Z: Compressor,
>(
    comparator: C,
    tables: Seq<(u64, status::Result<Arc<Table<C, F, P, Z>>>)>,
    verify: bool,
    stored: spec_fn(u64) -> Option<Scan>,
) -> bool {
    forall|i: int|
        0 <= i < tables.len() ==> ((#[trigger] tables[i]).1 matches Ok(table) ==> {
            &&& table.wf()
            &&& table.order() == comparator
            &&& stored(tables[i].0) matches Some(source) ==> holds(*table, verify, source)
        })
}

/// Whether a table holds the given entries, and can always be read where they are said to
/// be.
pub open spec fn holds<C: Comparator, F: RandomAccessFile, P: FilterPolicy, Z: Compressor>(
    table: Table<C, F, P, Z>,
    verify: bool,
    source: Scan,
) -> bool {
    &&& source.alike(
        table_iterator::table_scan(
            table.order(),
            table.bytes(),
            table.zip(),
            table.index_image(),
            verify,
            true,
        ),
    )
    &&& source.steady ==> source.intact && table.reliable()
}

/// Where the first table of a number is, from `from` on.
pub open spec fn place_of<C: Comparator, F: RandomAccessFile, P: FilterPolicy, Z: Compressor>(
    tables: Seq<(u64, status::Result<Arc<Table<C, F, P, Z>>>)>,
    number: u64,
    from: int,
) -> Option<int>
    decreases tables.len() - from,
{
    if from < 0 || from >= tables.len() {
        None
    } else if tables[from].0 == number {
        Some(from)
    } else {
        place_of(tables, number, from + 1)
    }
}

/// Whether each table that is stored is open.
pub open spec fn all_held<C: Comparator, F: RandomAccessFile, P: FilterPolicy, Z: Compressor>(
    tables: Seq<(u64, status::Result<Arc<Table<C, F, P, Z>>>)>,
    stored: spec_fn(u64) -> Option<Scan>,
) -> bool {
    forall|number: u64| #[trigger]
        stored(number) is Some ==> (place_of(tables, number, 0) matches Some(place)
            && tables[place].1 is Ok)
}

impl<C: Comparator, F: RandomAccessFile, P: FilterPolicy, Z: Compressor> OpenTables<C, F, P, Z> {
    #[verifier::type_invariant]
    spec fn inv(&self) -> bool {
        all_open_with(self.comparator, self.tables@, self.verify, self.stored@)
    }

    /// The tables with their numbers.
    pub closed spec fn held(&self) -> Seq<(u64, status::Result<Arc<Table<C, F, P, Z>>>)> {
        self.tables@
    }

    /// What the table of each number holds.
    pub closed spec fn stored(&self) -> spec_fn(u64) -> Option<Scan> {
        self.stored@
    }

    /// Whether checksums are checked.
    pub closed spec fn verifies(&self) -> bool {
        self.verify
    }

    /// The order of the keys.
    pub closed spec fn order(&self) -> C {
        self.comparator
    }

    pub fn new(
        comparator: C,
        tables: Vec<(u64, status::Result<Arc<Table<C, F, P, Z>>>)>,
        verify: bool,
        stored: Ghost<spec_fn(u64) -> Option<Scan>>,
    ) -> (opened: Self)
        requires
            all_open_with(comparator, tables@, verify, stored@),
        ensures
            opened.held() == tables@,
            opened.verifies() == verify,
            opened.order() == comparator,
            opened.stored() == stored@,
    {
        OpenTables { comparator, tables, verify, stored }
    }
}

impl<
    C: Comparator + 'static,
    F: RandomAccessFile,
    P: FilterPolicy,
    Z: Compressor,
> TableOpener for OpenTables<C, F, P, Z> {
    type Iter = TableIterator<C, F, P, Z>;

    open spec fn table_sources(&self) -> spec_fn(u64) -> Option<Scan> {
        self.stored()
    }

    open spec fn table_domain(&self) -> spec_fn(Seq<u8>) -> bool {
        comparator::domain_of(self.order())
    }

    open spec fn all_open(&self) -> bool {
        all_held(self.held(), self.stored())
    }

    fn open_table(&self, number: u64) -> (opened: status::Result<Self::Iter>) {
        proof {
            use_type_invariant(self);
        }
        let mut index: usize = 0;
        while index < self.tables.len()
            invariant
                index <= self.tables@.len(),
                self.inv(),
                place_of(self.held(), number, 0) == place_of(self.held(), number, index as int),
            decreases self.tables@.len() - index,
        {
            if self.tables[index].0 == number {
                assert(self.tables@[index as int].1 matches Ok(table) ==> table.wf());
                match &self.tables[index].1 {
                    Err(error) => {
                        return Err(error.clone());
                    },
                    Ok(table) => {
                        return Ok(TableIterator::new(table_builder::share(table), self.verify));
                    },
                }
            }
            index = index + 1;
        }
        Err(Status::not_found("Level iterator: table is not open"))
    }
}

/// The tables behind the index of a level, by their numbers.
pub open spec fn level_blocks(
    domain: spec_fn(Seq<u8>) -> bool,
    tables: spec_fn(u64) -> Option<Scan>,
) -> Blocks {
    Blocks {
        source: |handle: Seq<u8>|
            if handle.len() == 8 {
                tables(coding::le_value(handle) as u64)
            } else {
                None
            },
        domain,
    }
}

/// Opens the table behind an entry of the index of a level.
pub struct FileFunction<T: TableOpener> {
    pub opener: T,
}

impl<T: TableOpener> BlockFunction for FileFunction<T> {
    type Iter = T::Iter;

    open spec fn blocks(&self) -> Blocks {
        level_blocks(self.opener.table_domain(), self.opener.table_sources())
    }

    open spec fn sure(&self) -> bool {
        self.opener.all_open()
    }

    fn load(&self, handle: &[u8]) -> (loaded: status::Result<Self::Iter>)
        ensures
            handle@.len() != 8 ==> (loaded matches Err(error) && error.says(
                status::Code::Corruption,
                "Level iterator: bad file handle"@,
            )),
    {
        if handle.len() != 8 {
            return Err(Status::corruption("Level iterator: bad file handle"));
        }
        let number: u64 = coding::decode_fixed64(handle);
        proof {
            assert(handle@.take(8) =~= handle@);
        }
        self.opener.open_table(number)
    }
}

/// Runs over the entries of a level.
pub struct LevelIterator<C: Comparator, T: TableOpener> {
    inner: TwoLevelIterator<LevelFileNumIter<C>, FileFunction<T>>,
}

impl<C: Comparator, T: TableOpener> LevelIterator<C, T> {
    /// What opens the tables.
    pub closed spec fn function(&self) -> FileFunction<T> {
        self.inner.function()
    }

    /// The index of the level.
    pub closed spec fn level(&self) -> Scan {
        self.inner.index()
    }

    pub fn new(files: &Vec<FileMetaData>, icmp: InternalKeyComparator<C>, opener: T) -> (iter: Self)
        requires
            entry_sort::all_comparable(icmp, level_index(files@)),
            opener.table_domain() == comparator::domain_of(icmp),
        ensures
            iter.wf(),
            iter.function() == (FileFunction { opener }),
            iter.level().contents == db_iterator::map_of(level_index(files@)),
            iter.level().before == comparator::order_of(icmp),
            iter.level().admits == comparator::domain_of(icmp),
            iter.level().intact == db_iterator::sorted(icmp, level_index(files@)),
            iter.level().steady,
            iter.scan().current is None,
            iter.scan().failure is None,
    {
        let index_iter = LevelFileNumIter::new(files, icmp);
        proof {
            index_iter.lemma_scan();
        }
        LevelIterator { inner: TwoLevelIterator::new(index_iter, FileFunction { opener }) }
    }

    /// What the iterator runs over.
    pub proof fn lemma_scan(&self)
        ensures
            self.scan().contents == two_level_iter::all_blocks(
                self.function().blocks(),
                self.level().contents,
            ),
            self.scan().before == self.level().before,
            self.scan().admits == self.level().admits,
            self.scan().intact == two_level_iter::joint(self.function().blocks(), self.level()),
            self.scan().steady == two_level_iter::readable(
                self.function().blocks(),
                self.function().sure(),
                self.level(),
            ),
    {
        self.inner.lemma_scan();
    }
}

impl<C: Comparator, T: TableOpener> DbIterator for LevelIterator<C, T> {
    closed spec fn wf(&self) -> bool {
        self.inner.wf()
    }

    closed spec fn scan(&self) -> Scan {
        self.inner.scan()
    }

    fn valid(&self) -> (answer: bool) {
        self.inner.valid()
    }

    fn seek_to_first(&mut self) {
        self.inner.seek_to_first();
    }

    fn seek_to_last(&mut self) {
        self.inner.seek_to_last();
    }

    fn seek(&mut self, target: &[u8]) {
        self.inner.seek(target);
    }

    fn next(&mut self) {
        self.inner.next();
    }

    fn prev(&mut self) {
        self.inner.prev();
    }

    fn key(&self) -> (key: &[u8]) {
        self.inner.key()
    }

    fn value(&self) -> (value: &[u8]) {
        self.inner.value()
    }

    fn status(&self) -> (outcome: status::Result<()>) {
        self.inner.status()
    }
}

/// An iterator over a level whose tables do not overlap runs over the entries of all
/// its tables.
pub proof fn law_level_scan<C: Comparator, T: TableOpener>(
    comparator: InternalKeyComparator<C>,
    iter: LevelIterator<C, T>,
    files: Seq<FileMetaData>,
    tables: Seq<Seq<db_iterator::Pair>>,
)
    requires
        files.len() == tables.len(),
        files.len() <= u64::MAX,
        db_iterator::sorted(comparator, level_index(files)),
        draft::parted(comparator, level_index(files), tables),
        iter.level().contents == db_iterator::map_of(level_index(files)),
        iter.level().before == comparator::order_of(comparator),
        iter.level().admits == comparator::domain_of(comparator),
        iter.level().intact,
        iter.function().opener.table_domain() == comparator::domain_of(comparator),
        forall|i: int|
            0 <= i < files.len() ==> table_iterator::behind_is(
                iter.function().blocks(),
                comparator,
                #[trigger] level_index(files)[i],
                tables[i],
            ),
    ensures
        iter.scan().intact,
        iter.scan().contents == db_iterator::map_of(draft::joined(tables)),
        iter.scan().before == comparator::order_of(comparator),
{
    let index = level_index(files);
    iter.lemma_scan();
    db_iterator::lemma_sorted_row(iter.level(), comparator, index);
    table_iterator::lemma_joint(iter.function().blocks(), comparator, iter.level(), index, tables);
    table_iterator::lemma_same_contents(
        iter.function().blocks(),
        comparator,
        iter.level(),
        index,
        tables,
    );
}

} // verus!
