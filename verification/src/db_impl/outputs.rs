//! Writing the tables of a compaction.
//!
//! What is kept of the entries goes to one table after the other. A table takes entries
//! until it is large enough.

use vstd::prelude::*;

use std::sync::Arc;

use crate::comparator;
use crate::comparator::Comparator;
use crate::db_impl::compaction;
use crate::db_impl::compaction::CompactionRun;
use crate::db_impl::compaction::DeeperLevels;
use crate::db_impl::entry_sort;
use crate::db_impl::table_input;
use crate::db_impl::table_output;
use crate::db_iter::db_iterator;
use crate::env;
use crate::env::Env;
use crate::env::RandomAccessFile;
use crate::filename;
use crate::filter::FilterPolicy;
use crate::format::InternalKeyComparator;
use crate::status;
use crate::status::Status;
use crate::table::draft;
use crate::table::draft::Draft;
use crate::table::draft::Recipe;
use crate::table::table_builder;
use crate::table::table_iterator;
use crate::table::Compressor;
use crate::table::TableFileBuilder;
use crate::version_set::FileMetaData;

verus! {

/// Numbers of files, one after the other.
pub type FileNumberSeq = Seq<u64>;

/// Hands out numbers for new files.
pub trait FileNumbers {
    /// The numbers that were handed out.
    spec fn handed_out(&self) -> FileNumberSeq;

    fn new_file_number(&mut self) -> (number: u64)
        ensures
            final(self).handed_out() == old(self).handed_out().push(number),
    ;
}

/// Hands out the numbers from one on.
pub struct NextNumbers {
    next: u64,
    given: Ghost<Seq<u64>>,
}

impl NextNumbers {
    /// The next number.
    pub closed spec fn upcoming(&self) -> u64 {
        self.next
    }

    pub fn new(first: u64) -> (numbers: Self)
        ensures
            numbers.upcoming() == first,
            numbers.handed_out() == Seq::<u64>::empty(),
    {
        NextNumbers { next: first, given: Ghost(Seq::empty()) }
    }
}

impl FileNumbers for NextNumbers {
    closed spec fn handed_out(&self) -> FileNumberSeq {
        self.given@
    }

    /// The last number there is comes again and again.
    fn new_file_number(&mut self) -> (number: u64)
        ensures
            number == old(self).upcoming(),
            final(self).upcoming() == if number < u64::MAX {
                number + 1
            } else {
                u64::MAX as int
            },
    {
        let number: u64 = self.next;
        if number < u64::MAX {
            self.next = number + 1;
        }
        self.given = Ghost(self.given@.push(number));
        number
    }
}

/// How the tables of a compaction are written.
pub struct OutputSettings<P: FilterPolicy, Z: Compressor> {
    /// The size of a block before compression.
    pub block_size: usize,
    /// How many keys share a restart point in a block.
    pub restart_interval: usize,
    pub filter_policy: Option<Arc<P>>,
    pub compressor: Option<Arc<Z>>,
    /// The size at which a table is large enough.
    pub max_file_size: u64,
}

impl<P: FilterPolicy, Z: Compressor> OutputSettings<P, Z> {
    /// How the tables are made.
    pub open spec fn recipe<C: Comparator>(&self, comparator: C) -> Recipe<C, P, Z> {
        Recipe {
            comparator,
            block_size: self.block_size,
            interval: self.restart_interval,
            policy: self.filter_policy,
            compressor: self.compressor,
        }
    }
}

/// Whether the next table takes so many entries: with these it is large enough, and with
/// fewer it is not, or there are no more.
pub open spec fn is_cut<C: Comparator, P: FilterPolicy, Z: Compressor>(
    recipe: Recipe<C, P, Z>,
    entries: Seq<db_iterator::Pair>,
    max_file_size: u64,
    count: int,
) -> bool {
    &&& 0 < count <= entries.len()
    &&& count == entries.len() || table_output::drafted(
        recipe,
        Draft::blank(),
        entries.take(count),
    ).written.len() >= max_file_size
    &&& forall|fewer: int|
        0 < fewer < count ==> (#[trigger] table_output::drafted(
            recipe,
            Draft::blank(),
            entries.take(fewer),
        )).written.len() < max_file_size
}

/// Whether the first `taken` entries are cut into these pieces, one for each table.
pub open spec fn cut_until<C: Comparator, P: FilterPolicy, Z: Compressor>(
    recipe: Recipe<C, P, Z>,
    entries: Seq<db_iterator::Pair>,
    max_file_size: u64,
    pieces: Seq<Seq<db_iterator::Pair>>,
    taken: int,
) -> bool
    decreases pieces.len(),
{
    if pieces.len() == 0 {
        taken == 0
    } else {
        let start = taken - pieces.last().len();
        &&& 0 <= start < taken <= entries.len()
        &&& pieces.last() == entries.subrange(start, taken)
        &&& is_cut(recipe, entries.skip(start), max_file_size, taken - start)
        &&& cut_until(recipe, entries, max_file_size, pieces.drop_last(), start)
    }
}

/// The files once tables of some entries are written under some numbers.
pub open spec fn files_with<C: Comparator, P: FilterPolicy, Z: Compressor>(
    files: Map<Seq<char>, Seq<u8>>,
    dbname: Seq<char>,
    recipe: Recipe<C, P, Z>,
    numbers: Seq<u64>,
    pieces: Seq<Seq<db_iterator::Pair>>,
) -> Map<Seq<char>, Seq<u8>>
    decreases pieces.len(),
{
    if pieces.len() == 0 {
        files
    } else {
        files_with(files, dbname, recipe, numbers.drop_last(), pieces.drop_last()).insert(
            filename::numbered(dbname, numbers.last(), "ldb"@),
            table_output::table_image(recipe, pieces.last()),
        )
    }
}

/// Whether this is known of the tables of some pieces.
pub open spec fn describe_all<C: Comparator, P: FilterPolicy, Z: Compressor>(
    recipe: Recipe<C, P, Z>,
    numbers: Seq<u64>,
    pieces: Seq<Seq<db_iterator::Pair>>,
    metas: Seq<FileMetaData>,
) -> bool {
    &&& numbers.len() == pieces.len()
    &&& metas.len() == pieces.len()
    &&& forall|i: int|
        #![trigger metas[i]]
        0 <= i < metas.len() ==> table_output::describes(
            metas[i],
            numbers[i],
            table_output::table_image(recipe, pieces[i]),
            pieces[i],
        ) && draft::finished_well(
            recipe,
            table_output::drafted(recipe, Draft::blank(), pieces[i]),
        )
}

/// Whether entries are in the tables that were written, cut into these pieces.
pub open spec fn outputs_are<C: Comparator, P: FilterPolicy, Z: Compressor>(
    recipe: Recipe<C, P, Z>,
    max_file_size: u64,
    dbname: Seq<char>,
    entries: Seq<db_iterator::Pair>,
    before: Map<Seq<char>, Seq<u8>>,
    after: Map<Seq<char>, Seq<u8>>,
    numbers: Seq<u64>,
    metas: Seq<FileMetaData>,
    pieces: Seq<Seq<db_iterator::Pair>>,
) -> bool {
    &&& cut_until(recipe, entries, max_file_size, pieces, entries.len() as int)
    &&& describe_all(recipe, numbers, pieces, metas)
    &&& after == files_with(before, dbname, recipe, numbers, pieces)
}

/// Whether entries are in the tables that were written.
pub open spec fn written_as<C: Comparator, P: FilterPolicy, Z: Compressor>(
    recipe: Recipe<C, P, Z>,
    max_file_size: u64,
    dbname: Seq<char>,
    entries: Seq<db_iterator::Pair>,
    before: Map<Seq<char>, Seq<u8>>,
    after: Map<Seq<char>, Seq<u8>>,
    numbers: Seq<u64>,
    metas: Seq<FileMetaData>,
) -> bool {
    exists|pieces: Seq<Seq<db_iterator::Pair>>| #[trigger]
        outputs_are(
            recipe,
            max_file_size,
            dbname,
            entries,
            before,
            after,
            numbers,
            metas,
            pieces,
        )
}

/// Whether a path is that of a table of one of some numbers.
pub open spec fn is_table_of(dbname: Seq<char>, numbers: Seq<u64>, path: Seq<char>) -> bool {
    exists|i: int|
        0 <= i < numbers.len() && path == filename::numbered(dbname, #[trigger] numbers[i], "ldb"@)
}

/// Whether two sets of files agree but on the tables of some numbers.
pub open spec fn agree_but_tables(
    before: Map<Seq<char>, Seq<u8>>,
    after: Map<Seq<char>, Seq<u8>>,
    dbname: Seq<char>,
    numbers: Seq<u64>,
) -> bool {
    forall|path: Seq<char>|
        !is_table_of(dbname, numbers, path) ==> #[trigger] before.contains_key(path)
            == after.contains_key(path) && before[path] == after[path]
}

/// The tables of a compaction hold, one after the other, all entries that are kept.
pub proof fn law_outputs_hold_all<C: Comparator, P: FilterPolicy, Z: Compressor>(
    recipe: Recipe<C, P, Z>,
    entries: Seq<db_iterator::Pair>,
    max_file_size: u64,
    pieces: Seq<Seq<db_iterator::Pair>>,
    taken: int,
)
    requires
        cut_until(recipe, entries, max_file_size, pieces, taken),
        taken <= entries.len(),
    ensures
        draft::joined(pieces) == entries.take(taken),
    decreases pieces.len(),
{
    if pieces.len() == 0 {
        assert(draft::joined(pieces) =~= entries.take(0));
    } else {
        let start = taken - pieces.last().len();
        law_outputs_hold_all(recipe, entries, max_file_size, pieces.drop_last(), start);
        assert(entries.take(start) + entries.subrange(start, taken) =~= entries.take(taken));
    }
}

/// There is one way only to cut entries into pieces.
pub proof fn law_cut_is_unique<C: Comparator, P: FilterPolicy, Z: Compressor>(
    recipe: Recipe<C, P, Z>,
    entries: Seq<db_iterator::Pair>,
    max_file_size: u64,
    a: int,
    b: int,
)
    requires
        is_cut(recipe, entries, max_file_size, a),
        is_cut(recipe, entries, max_file_size, b),
    ensures
        a == b,
{
    if a < b {
        assert(table_output::drafted(recipe, Draft::blank(), entries.take(a)).written.len()
            < max_file_size);
    } else if b < a {
        assert(table_output::drafted(recipe, Draft::blank(), entries.take(b)).written.len()
            < max_file_size);
    }
}

impl<C: Comparator, L: DeeperLevels> CompactionRun<C, L> {
    /// Writes the next table. Returns what is known of it.
    pub fn write_output<E: Env, P: FilterPolicy, Z: Compressor>(
        &mut self,
        env: &mut E,
        dbname: &str,
        number: u64,
        settings: &OutputSettings<P, Z>,
    ) -> (written: status::Result<FileMetaData>)
        requires
            old(self).wf(),
            old(self).rest().len() > 0,
            old(env).wf(),
            settings.restart_interval >= 1,
        ensures
            final(self).wf(),
            final(self).same_run(*old(self)),
            final(env).wf(),
            final(env).locks() == old(env).locks(),
            final(env).reliable() == old(env).reliable(),
            written matches Ok(meta) ==> {
                let recipe = settings.recipe(old(self).key_order());
                let count = old(self).rest().len() - final(self).rest().len();
                let taken = old(self).rest().take(count);
                let image = table_output::table_image(recipe, taken);
                &&& is_cut(recipe, old(self).rest(), settings.max_file_size, count)
                &&& final(self).rest() == old(self).rest().skip(count)
                &&& final(env).files() == old(env).files().insert(
                    filename::numbered(dbname@, number, "ldb"@),
                    image,
                )
                &&& final(env).synced().contains(filename::numbered(dbname@, number, "ldb"@))
                &&& draft::finished_well(
                    recipe,
                    table_output::drafted(recipe, Draft::blank(), taken),
                )
                &&& table_output::describes(meta, number, image, taken)
            },
            written is Err ==> env::agree_but(
                old(env).files(),
                final(env).files(),
                filename::numbered(dbname@, number, "ldb"@),
            ),
            old(env).reliable() && db_iterator::sorted(old(self).key_order(), old(self).input())
                && old(self).rest().len() < u64::MAX ==> written is Ok,
    {
        let path = filename::table_file_name(dbname, number);
        let file = match env.new_writable_file(path.as_str()) {
            Err(error) => {
                return Err(error);
            },
            Ok(file) => file,
        };
        let ghost opened = env.files();
        let mut builder = TableFileBuilder::with_options(
            comparator::copy_of(self.comparator()),
            settings.block_size,
            settings.restart_interval,
            file,
            table_builder::share_option(&settings.filter_policy),
            table_builder::share_option(&settings.compressor),
        );
        let ghost recipe = builder.recipe();
        assert(env::agree_but(old(env).files(), opened, path@));
        let (smallest, largest) = match self.fill_output(&mut builder, settings.max_file_size) {
            Err(error) => {
                return Err(error);
            },
            Ok(bounds) => bounds,
        };
        let ghost whole = builder.draft();
        proof {
            builder.lemma_wf();
            let rest = old(self).rest();
            let count = rest.len() - self.rest().len();
            assert(self.rest() =~= rest.skip(count));
            assert forall|fewer: int| 0 < fewer < count implies (#[trigger] table_output::drafted(
                recipe,
                Draft::blank(),
                rest.take(fewer),
            )).written.len() < settings.max_file_size by {
                assert(rest.take(count).take(fewer) =~= rest.take(fewer));
            }
        }
        let written = table_output::finish_table_output(
            env,
            path.as_str(),
            builder,
            number,
            smallest,
            largest,
        );
        proof {
            if written is Ok {
                let image = recipe.finished(whole).image;
                assert(Seq::<u8>::empty() + image =~= image);
                assert(env.files() =~= old(env).files().insert(path@, image));
            } else {
                env::lemma_agree_but(old(env).files(), opened, env.files(), path@);
            }
        }
        written
    }
}

/// Tables that are written one more of.
proof fn lemma_one_more_output<C: Comparator, P: FilterPolicy, Z: Compressor>(
    recipe: Recipe<C, P, Z>,
    max_file_size: u64,
    dbname: Seq<char>,
    entries: Seq<db_iterator::Pair>,
    before: Map<Seq<char>, Seq<u8>>,
    numbers: Seq<u64>,
    metas: Seq<FileMetaData>,
    pieces: Seq<Seq<db_iterator::Pair>>,
    taken: int,
    number: u64,
    meta: FileMetaData,
    count: int,
)
    requires
        0 <= taken <= entries.len(),
        cut_until(recipe, entries, max_file_size, pieces, taken),
        describe_all(recipe, numbers, pieces, metas),
        is_cut(recipe, entries.skip(taken), max_file_size, count),
        ({
            let piece = entries.skip(taken).take(count);
            &&& table_output::describes(
                meta,
                number,
                table_output::table_image(recipe, piece),
                piece,
            )
            &&& draft::finished_well(recipe, table_output::drafted(recipe, Draft::blank(), piece))
        }),
    ensures
        ({
            let piece = entries.skip(taken).take(count);
            &&& cut_until(recipe, entries, max_file_size, pieces.push(piece), taken + count)
            &&& describe_all(recipe, numbers.push(number), pieces.push(piece), metas.push(meta))
            &&& files_with(before, dbname, recipe, numbers.push(number), pieces.push(piece))
                == files_with(before, dbname, recipe, numbers, pieces).insert(
                filename::numbered(dbname, number, "ldb"@),
                table_output::table_image(recipe, piece),
            )
        }),
{
    let piece = entries.skip(taken).take(count);
    let more = pieces.push(piece);
    assert(more.drop_last() =~= pieces);
    assert(numbers.push(number).drop_last() =~= numbers);
    assert(piece =~= entries.subrange(taken, taken + count));
    assert forall|i: int|
        #![trigger metas.push(meta)[i]]
        0 <= i < metas.push(meta).len() implies table_output::describes(
        metas.push(meta)[i],
        numbers.push(number)[i],
        table_output::table_image(recipe, more[i]),
        more[i],
    ) && draft::finished_well(recipe, table_output::drafted(recipe, Draft::blank(), more[i])) by {
        if i < metas.len() {
            assert(metas.push(meta)[i] == metas[i]);
            assert(numbers.push(number)[i] == numbers[i]);
            assert(more[i] == pieces[i]);
        }
    }
}

/// Files that agree but on the tables of some numbers, and then on one more.
proof fn lemma_agree_one_more(
    before: Map<Seq<char>, Seq<u8>>,
    between: Map<Seq<char>, Seq<u8>>,
    after: Map<Seq<char>, Seq<u8>>,
    dbname: Seq<char>,
    numbers: Seq<u64>,
    number: u64,
)
    requires
        agree_but_tables(before, between, dbname, numbers),
        env::agree_but(between, after, filename::numbered(dbname, number, "ldb"@)),
    ensures
        agree_but_tables(before, after, dbname, numbers.push(number)),
{
    let more = numbers.push(number);
    assert forall|path: Seq<char>|
        !is_table_of(dbname, more, path) implies #[trigger] before.contains_key(path)
        == after.contains_key(path) && before[path] == after[path] by {
        assert(more[numbers.len() as int] == number);
        if is_table_of(dbname, numbers, path) {
            let i = choose|i: int|
                0 <= i < numbers.len() && path == filename::numbered(
                    dbname,
                    #[trigger] numbers[i],
                    "ldb"@,
                );
            assert(more[i] == numbers[i]);
        }
        assert(before.contains_key(path) == between.contains_key(path));
        assert(between.contains_key(path) == after.contains_key(path));
    }
}

/// Whether the first `taken` entries are in the tables that were written so far.
#[verifier::opaque]
spec fn so_far<C: Comparator, P: FilterPolicy, Z: Compressor>(
    recipe: Recipe<C, P, Z>,
    max_file_size: u64,
    dbname: Seq<char>,
    entries: Seq<db_iterator::Pair>,
    before: Map<Seq<char>, Seq<u8>>,
    after: Map<Seq<char>, Seq<u8>>,
    numbers: Seq<u64>,
    metas: Seq<FileMetaData>,
    pieces: Seq<Seq<db_iterator::Pair>>,
    taken: int,
) -> bool {
    &&& cut_until(recipe, entries, max_file_size, pieces, taken)
    &&& describe_all(recipe, numbers, pieces, metas)
    &&& after == files_with(before, dbname, recipe, numbers, pieces)
    &&& agree_but_tables(before, after, dbname, numbers)
}

/// Nothing is written at first.
proof fn lemma_none_so_far<C: Comparator, P: FilterPolicy, Z: Compressor>(
    recipe: Recipe<C, P, Z>,
    max_file_size: u64,
    dbname: Seq<char>,
    entries: Seq<db_iterator::Pair>,
    files: Map<Seq<char>, Seq<u8>>,
    metas: Seq<FileMetaData>,
)
    requires
        metas.len() == 0,
    ensures
        so_far(
            recipe,
            max_file_size,
            dbname,
            entries,
            files,
            files,
            Seq::empty(),
            metas,
            Seq::empty(),
            0,
        ),
{
    reveal(so_far);
}

/// One more table is written.
proof fn lemma_more_so_far<C: Comparator, P: FilterPolicy, Z: Compressor>(
    recipe: Recipe<C, P, Z>,
    max_file_size: u64,
    dbname: Seq<char>,
    entries: Seq<db_iterator::Pair>,
    before: Map<Seq<char>, Seq<u8>>,
    between: Map<Seq<char>, Seq<u8>>,
    numbers: Seq<u64>,
    metas: Seq<FileMetaData>,
    pieces: Seq<Seq<db_iterator::Pair>>,
    taken: int,
    number: u64,
    meta: FileMetaData,
    count: int,
)
    requires
        so_far(
            recipe,
            max_file_size,
            dbname,
            entries,
            before,
            between,
            numbers,
            metas,
            pieces,
            taken,
        ),
        0 <= taken <= entries.len(),
        is_cut(recipe, entries.skip(taken), max_file_size, count),
        ({
            let piece = entries.skip(taken).take(count);
            &&& table_output::describes(
                meta,
                number,
                table_output::table_image(recipe, piece),
                piece,
            )
            &&& draft::finished_well(recipe, table_output::drafted(recipe, Draft::blank(), piece))
        }),
    ensures
        so_far(
            recipe,
            max_file_size,
            dbname,
            entries,
            before,
            between.insert(
                filename::numbered(dbname, number, "ldb"@),
                table_output::table_image(recipe, entries.skip(taken).take(count)),
            ),
            numbers.push(number),
            metas.push(meta),
            pieces.push(entries.skip(taken).take(count)),
            taken + count,
        ),
{
    reveal(so_far);
    let path = filename::numbered(dbname, number, "ldb"@);
    let after = between.insert(
        path,
        table_output::table_image(recipe, entries.skip(taken).take(count)),
    );
    lemma_one_more_output(
        recipe,
        max_file_size,
        dbname,
        entries,
        before,
        numbers,
        metas,
        pieces,
        taken,
        number,
        meta,
        count,
    );
    assert(env::agree_but(between, after, path));
    lemma_agree_one_more(before, between, after, dbname, numbers, number);
}

/// What was done to the files when a table could not be written.
proof fn lemma_failed_so_far<C: Comparator, P: FilterPolicy, Z: Compressor>(
    recipe: Recipe<C, P, Z>,
    max_file_size: u64,
    dbname: Seq<char>,
    entries: Seq<db_iterator::Pair>,
    before: Map<Seq<char>, Seq<u8>>,
    between: Map<Seq<char>, Seq<u8>>,
    after: Map<Seq<char>, Seq<u8>>,
    numbers: Seq<u64>,
    metas: Seq<FileMetaData>,
    pieces: Seq<Seq<db_iterator::Pair>>,
    taken: int,
    number: u64,
)
    requires
        so_far(
            recipe,
            max_file_size,
            dbname,
            entries,
            before,
            between,
            numbers,
            metas,
            pieces,
            taken,
        ),
        env::agree_but(between, after, filename::numbered(dbname, number, "ldb"@)),
    ensures
        agree_but_tables(before, after, dbname, numbers.push(number)),
{
    reveal(so_far);
    lemma_agree_one_more(before, between, after, dbname, numbers, number);
}

/// All entries are in the tables that were written.
proof fn lemma_all_written<C: Comparator, P: FilterPolicy, Z: Compressor>(
    recipe: Recipe<C, P, Z>,
    max_file_size: u64,
    dbname: Seq<char>,
    entries: Seq<db_iterator::Pair>,
    before: Map<Seq<char>, Seq<u8>>,
    after: Map<Seq<char>, Seq<u8>>,
    numbers: Seq<u64>,
    metas: Seq<FileMetaData>,
    pieces: Seq<Seq<db_iterator::Pair>>,
)
    requires
        so_far(
            recipe,
            max_file_size,
            dbname,
            entries,
            before,
            after,
            numbers,
            metas,
            pieces,
            entries.len() as int,
        ),
    ensures
        written_as(recipe, max_file_size, dbname, entries, before, after, numbers, metas),
{
    reveal(so_far);
    assert(outputs_are(
        recipe,
        max_file_size,
        dbname,
        entries,
        before,
        after,
        numbers,
        metas,
        pieces,
    ));
}

/// Writes all that is kept to tables. Returns what is known of these.
#[verifier::spinoff_prover]
#[verifier::rlimit(40)]
pub fn write_outputs<
    E: Env,
    C: Comparator,
    L: DeeperLevels,
    P: FilterPolicy,
    Z: Compressor,
    N: FileNumbers,
>(
    env: &mut E,
    dbname: &str,
    run: CompactionRun<C, L>,
    settings: &OutputSettings<P, Z>,
    numbers: &mut N,
) -> (written: status::Result<Vec<FileMetaData>>)
    requires
        old(env).wf(),
        run.wf(),
        settings.restart_interval >= 1,
    ensures
        final(env).wf(),
        final(env).locks() == old(env).locks(),
        final(env).reliable() == old(env).reliable(),
        old(numbers).handed_out().is_prefix_of(final(numbers).handed_out()),
        written matches Ok(metas) ==> written_as(
            settings.recipe(run.key_order()),
            settings.max_file_size,
            dbname@,
            run.rest(),
            old(env).files(),
            final(env).files(),
            final(numbers).handed_out().skip(old(numbers).handed_out().len() as int),
            metas@,
        ),
        written is Err ==> agree_but_tables(
            old(env).files(),
            final(env).files(),
            dbname@,
            final(numbers).handed_out().skip(old(numbers).handed_out().len() as int),
        ),
        old(env).reliable() && db_iterator::sorted(run.key_order(), run.input())
            && run.rest().len() < u64::MAX ==> written is Ok,
{
    let ghost recipe = settings.recipe(run.key_order());
    let ghost all = run.rest();
    let ghost start = run;
    let ghost held = numbers.handed_out();
    let ghost mut pieces: Seq<Seq<db_iterator::Pair>> = Seq::empty();
    let ghost mut given: Seq<u64> = Seq::empty();
    let ghost mut taken: int = 0;
    let mut left = run;
    let mut metas: Vec<FileMetaData> = Vec::new();
    proof {
        assert(all.skip(0) =~= all);
        assert(held.skip(held.len() as int) =~= given);
        assert(held + given =~= held);
        lemma_none_so_far(
            recipe,
            settings.max_file_size,
            dbname@,
            all,
            env.files(),
            metas@,
        );
    }
    let mut more = left.advance();
    while more
        invariant
            env.wf(),
            env.locks() == old(env).locks(),
            env.reliable() == old(env).reliable(),
            settings.restart_interval >= 1,
            left.wf(),
            left.same_run(start),
            all == start.rest(),
            start == run,
            0 <= taken <= all.len(),
            left.rest() == all.skip(taken),
            more == (left.rest().len() > 0),
            recipe == settings.recipe(start.key_order()),
            held == old(numbers).handed_out(),
            numbers.handed_out() == held + given,
            so_far(
                recipe,
                settings.max_file_size,
                dbname@,
                all,
                old(env).files(),
                env.files(),
                given,
                metas@,
                pieces,
                taken,
            ),
        decreases all.len() - taken,
    {
        let ghost at = left;
        let ghost files = env.files();
        let number: u64 = numbers.new_file_number();
        let ghost before = given;
        proof {
            given = given.push(number);
            assert(numbers.handed_out() =~= held + given);
            assert(at.input() =~= start.input());
        }
        match left.write_output(env, dbname, number, settings) {
            Err(error) => {
                proof {
                    lemma_failed_so_far(
                        recipe,
                        settings.max_file_size,
                        dbname@,
                        all,
                        old(env).files(),
                        files,
                        env.files(),
                        before,
                        metas@,
                        pieces,
                        taken,
                        number,
                    );
                    assert(numbers.handed_out().skip(held.len() as int) =~= given);
                    if db_iterator::sorted(start.key_order(), start.input()) {
                        assert(at.rest().len() <= all.len());
                    }
                }
                return Err(error);
            },
            Ok(meta) => {
                proof {
                    let count = at.rest().len() - left.rest().len();
                    lemma_more_so_far(
                        recipe,
                        settings.max_file_size,
                        dbname@,
                        all,
                        old(env).files(),
                        files,
                        before,
                        metas@,
                        pieces,
                        taken,
                        number,
                        meta,
                        count,
                    );
                    assert(all.skip(taken).skip(count) =~= all.skip(taken + count));
                    pieces = pieces.push(all.skip(taken).take(count));
                    taken = taken + count;
                }
                metas.push(meta);
            },
        }
        more = left.advance();
    }
    proof {
        assert(taken == all.len());
        assert(numbers.handed_out().skip(held.len() as int) =~= given);
        lemma_all_written(
            recipe,
            settings.max_file_size,
            dbname@,
            all,
            old(env).files(),
            env.files(),
            given,
            metas@,
            pieces,
        );
    }
    Ok(metas)
}

/// Entries in the order of their ranks.
pub open spec fn arranged(read: Seq<db_iterator::Pair>, ranks: Seq<usize>) -> Seq<
    db_iterator::Pair,
> {
    Seq::new(ranks.len(), |i: int| read[ranks[i] as int])
}

/// Whether this is what reading the tables of some numbers returns.
pub open spec fn was_read<C: Comparator, F: RandomAccessFile, Z: Compressor>(
    comparator: C,
    compressor: Option<Arc<Z>>,
    files: Map<Seq<char>, Seq<u8>>,
    dbname: Seq<char>,
    inputs: Seq<u64>,
    verify: bool,
    read: status::Result<Vec<(Vec<u8>, Vec<u8>)>>,
) -> bool {
    exists|parts: Seq<Vec<(Vec<u8>, Vec<u8>)>>| #[trigger]
        table_input::read_is::<C, F, Z>(
            comparator,
            compressor,
            files,
            dbname,
            inputs,
            verify,
            parts,
            read,
        )
}

/// Whether the tables that were written hold what is kept of the entries that were read.
pub open spec fn is_compaction<C: Comparator, L: DeeperLevels, P: FilterPolicy, Z: Compressor>(
    comparator: InternalKeyComparator<C>,
    settings: OutputSettings<P, Z>,
    smallest_snapshot: u64,
    levels: L,
    dbname: Seq<char>,
    before: Map<Seq<char>, Seq<u8>>,
    after: Map<Seq<char>, Seq<u8>>,
    numbers: Seq<u64>,
    metas: Seq<FileMetaData>,
    read: Seq<db_iterator::Pair>,
    ranks: Seq<usize>,
) -> bool {
    &&& entry_sort::is_sorted_by(comparator, read, ranks)
    &&& written_as(
        settings.recipe(comparator),
        settings.max_file_size,
        dbname,
        compaction::kept_from(arranged(read, ranks), 0, smallest_snapshot, levels),
        before,
        after,
        numbers,
        metas,
    )
}

/// Whether the tables that were written hold what is kept of the entries of the tables
/// of some numbers.
pub open spec fn compacted_from<
    E: Env,
    C: Comparator,
    L: DeeperLevels,
    P: FilterPolicy,
    Z: Compressor,
>(
    comparator: InternalKeyComparator<C>,
    settings: OutputSettings<P, Z>,
    smallest_snapshot: u64,
    levels: L,
    dbname: Seq<char>,
    inputs: Seq<u64>,
    verify: bool,
    before: E,
    after: E,
    numbers: Seq<u64>,
    metas: Seq<FileMetaData>,
) -> bool {
    exists|read: Vec<(Vec<u8>, Vec<u8>)>, ranks: Seq<usize>|
        was_read::<InternalKeyComparator<C>, E::RandomAccess, Z>(
            comparator,
            settings.compressor,
            before.files(),
            dbname,
            inputs,
            verify,
            Ok::<Vec<(Vec<u8>, Vec<u8>)>, Status>(read),
        ) && #[trigger] is_compaction(
            comparator,
            settings,
            smallest_snapshot,
            levels,
            dbname,
            before.files(),
            after.files(),
            numbers,
            metas,
            table_iterator::pair_views(read@),
            ranks,
        )
}

/// Whether entries can be compacted: their keys are well formed, and no two of them are
/// the same.
pub open spec fn can_compact<C: Comparator>(
    comparator: InternalKeyComparator<C>,
    read: Seq<db_iterator::Pair>,
) -> bool {
    &&& entry_sort::all_comparable(comparator, read)
    &&& read.len() < u64::MAX
    &&& forall|ranks: Seq<usize>| #[trigger]
        entry_sort::is_sorted_by(comparator, read, ranks) ==> db_iterator::sorted(
            comparator,
            arranged(read, ranks),
        )
}

/// Whether a compaction fails with an error once this was read.
pub open spec fn fails_with<C: Comparator>(
    comparator: InternalKeyComparator<C>,
    read: status::Result<Vec<(Vec<u8>, Vec<u8>)>>,
    error: Status,
) -> bool {
    match read {
        Err(met) => error == met,
        Ok(entries) => {
            let pairs = table_iterator::pair_views(entries@);
            &&& !can_compact(comparator, pairs)
            &&& !entry_sort::all_comparable(comparator, pairs) ==> error.says(
                status::Code::Corruption,
                "compaction input with a malformed key"@,
            )
        },
    }
}

/// Whether a compaction of the tables of some numbers fails with an error.
pub open spec fn compaction_fails<C: Comparator, F: RandomAccessFile, Z: Compressor>(
    comparator: InternalKeyComparator<C>,
    compressor: Option<Arc<Z>>,
    files: Map<Seq<char>, Seq<u8>>,
    dbname: Seq<char>,
    inputs: Seq<u64>,
    verify: bool,
    error: Status,
) -> bool {
    exists|read: status::Result<Vec<(Vec<u8>, Vec<u8>)>>|
        was_read::<InternalKeyComparator<C>, F, Z>(
            comparator,
            compressor,
            files,
            dbname,
            inputs,
            verify,
            read,
        ) && #[trigger] fails_with(comparator, read, error)
}

/// No more is kept than there is.
proof fn lemma_kept_count<L: DeeperLevels>(
    input: Seq<db_iterator::Pair>,
    from: int,
    smallest_snapshot: u64,
    levels: L,
)
    requires
        0 <= from <= input.len(),
    ensures
        compaction::kept_from(input, from, smallest_snapshot, levels).len() <= input.len() - from,
    decreases input.len() - from,
{
    if from < input.len() {
        lemma_kept_count(input, from + 1, smallest_snapshot, levels);
    }
}

/// Ranks of entries are as many as the entries.
proof fn lemma_rank_count<C: Comparator>(
    comparator: C,
    read: Seq<db_iterator::Pair>,
    ranks: Seq<usize>,
)
    requires
        entry_sort::all_comparable(comparator, read),
        entry_sort::is_sorted_by(comparator, read, ranks),
    ensures
        ranks.len() <= read.len(),
{
    let places = Seq::new(ranks.len(), |i: int| ranks[i] as int);
    assert(places.no_duplicates()) by {
        assert forall|i: int, j: int| 0 <= i < j < places.len() implies places[i] != places[j] by {
            assert(entry_sort::ahead(comparator, read, ranks[i] as int, ranks[j] as int));
            if ranks[i] == ranks[j] {
                assert(entry_sort::is_among(ranks, ranks.len() as int, ranks[i]));
                comparator.less_irreflexive(read[ranks[i] as int].0);
            }
        }
    }
    places.unique_seq_to_set();
    let all = vstd::set_lib::set_int_range(0, read.len() as int);
    vstd::set_lib::lemma_int_range(0, read.len() as int);
    assert(places.to_set().subset_of(all)) by {
        assert forall|place: int| places.to_set().contains(place) implies all.contains(place) by {
            let i = choose|i: int| 0 <= i < places.len() && places[i] == place;
            assert(entry_sort::is_among(ranks, ranks.len() as int, ranks[i]));
        }
    }
    vstd::set_lib::lemma_len_subset(places.to_set(), all);
}

/// Compacts tables: reads all their entries, drops what no reader can see any more, and
/// writes the others to new tables. Returns what is known of these.
pub fn compact_tables<
    E: Env,
    C: Comparator,
    L: DeeperLevels,
    P: FilterPolicy,
    Z: Compressor,
    N: FileNumbers,
>(
    env: &mut E,
    dbname: &str,
    inputs: &Vec<u64>,
    comparator: &InternalKeyComparator<C>,
    verify: bool,
    smallest_snapshot: u64,
    levels: L,
    settings: &OutputSettings<P, Z>,
    numbers: &mut N,
) -> (written: status::Result<Vec<FileMetaData>>)
    requires
        old(env).wf(),
        settings.restart_interval >= 1,
    ensures
        final(env).wf(),
        final(env).locks() == old(env).locks(),
        final(env).reliable() == old(env).reliable(),
        old(numbers).handed_out().is_prefix_of(final(numbers).handed_out()),
        written matches Ok(metas) ==> compacted_from(
            *comparator,
            *settings,
            smallest_snapshot,
            levels,
            dbname@,
            inputs@,
            verify,
            *old(env),
            *final(env),
            final(numbers).handed_out().skip(old(numbers).handed_out().len() as int),
            metas@,
        ),
        written is Err ==> agree_but_tables(
            old(env).files(),
            final(env).files(),
            dbname@,
            final(numbers).handed_out().skip(old(numbers).handed_out().len() as int),
        ),
        old(env).reliable() ==> (written matches Err(error) ==> compaction_fails::<
            C,
            E::RandomAccess,
            Z,
        >(
            *comparator,
            settings.compressor,
            old(env).files(),
            dbname@,
            inputs@,
            verify,
            error,
        )),
{
    let read = table_input::read_inputs(
        env,
        dbname,
        inputs,
        comparator,
        &settings.compressor,
        verify,
    );
    let ghost told = read;
    assert(env.reliable() || told is Ok ==> was_read::<InternalKeyComparator<C>, E::RandomAccess, Z>(
        *comparator,
        settings.compressor,
        env.files(),
        dbname@,
        inputs@,
        verify,
        told,
    ));
    let entries = match read {
        Err(error) => {
            assert(fails_with(*comparator, told, error));
            return Err(error);
        },
        Ok(entries) => entries,
    };
    let ghost pairs = table_iterator::pair_views(entries@);
    let run = match CompactionRun::new(
        comparator::copy_of(comparator),
        entries,
        smallest_snapshot,
        levels,
    ) {
        Err(error) => {
            assert(fails_with(*comparator, told, error));
            return Err(error);
        },
        Ok(run) => run,
    };
    let ghost ranks = run.ranks();
    proof {
        run.lemma_input();
        assert(run.input() =~= arranged(pairs, ranks));
        lemma_rank_count(*comparator, pairs, ranks);
        lemma_kept_count(run.input(), 0, smallest_snapshot, levels);
    }
    let written = write_outputs(env, dbname, run, settings, numbers);
    proof {
        if written is Ok {
            assert(is_compaction(
                *comparator,
                *settings,
                smallest_snapshot,
                levels,
                dbname@,
                old(env).files(),
                env.files(),
                numbers.handed_out().skip(old(numbers).handed_out().len() as int),
                written->Ok_0@,
                pairs,
                ranks,
            ));
        } else if env.reliable() {
            assert(entry_sort::is_sorted_by(*comparator, pairs, ranks));
            assert(fails_with(*comparator, told, written->Err_0));
        }
    }
    written
}

} // verus!
