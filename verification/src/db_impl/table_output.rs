//! Writing entries to a table.

use vstd::prelude::*;

use std::sync::Arc;

use crate::comparator::Comparator;
use crate::db_iter::db_iterator;
use crate::env;
use crate::env::Env;
use crate::env::WritableFile;
use crate::filter::FilterPolicy;
use crate::status;
use crate::status::Status;
use crate::table::draft;
use crate::table::draft::Draft;
use crate::table::draft::Recipe;
use crate::table::table_iterator;
use crate::table::Compressor;
use crate::table::TableFileBuilder;
use crate::version_set::FileMetaData;

verus! {

/// The draft of a table of some entries.
pub open spec fn drafted<C: Comparator, P: FilterPolicy, Z: Compressor>(
    recipe: Recipe<C, P, Z>,
    start: Draft,
    entries: Seq<db_iterator::Pair>,
) -> Draft
    decreases entries.len(),
{
    if entries.len() == 0 {
        start
    } else {
        let last = entries.last();
        recipe.added(drafted(recipe, start, entries.drop_last()), last.0, last.1)
    }
}

/// Finishes a table, syncs and closes its file, which was opened for writing at `path`.
/// Returns what is known of the table.
pub fn finish_table_output<E: Env, C: Comparator, P: FilterPolicy, Z: Compressor>(
    env: &mut E,
    path: &str,
    builder: TableFileBuilder<C, E::Writable, P, Z>,
    file_number: u64,
    smallest: Vec<u8>,
    largest: Vec<u8>,
) -> (finished: status::Result<FileMetaData>)
    requires
        old(env).wf(),
        builder.wf(),
    ensures
        final(env).wf(),
        final(env).locks() == old(env).locks(),
        final(env).reliable() == old(env).reliable(),
        finished matches Ok(meta) ==> {
            let image = builder.recipe().finished(builder.draft()).image;
            &&& final(env).files() == old(env).files().insert(path@, builder.prefix() + image)
            &&& meta.number == file_number
            &&& meta.file_size == image.len()
            &&& meta.smallest@ == smallest@
            &&& meta.largest@ == largest@
            &&& draft::finished_well(builder.recipe(), builder.draft())
        },
        finished is Ok ==> final(env).synced().contains(path@),
        finished is Err ==> env::agree_but(old(env).files(), final(env).files(), path@),
        old(env).reliable() && builder.sink().reliable() ==> finished is Ok,
{
    let mut builder = builder;
    match builder.finish() {
        Err(error) => {
            return Err(error);
        },
        Ok(_) => {},
    }
    let file_size: u64 = builder.file_size();
    let mut file = builder.into_file();
    match env.finish_file(path, &mut file) {
        Err(error) => {
            return Err(error);
        },
        Ok(_) => {},
    }
    Ok(FileMetaData { number: file_number, file_size, smallest, largest })
}

/// Whether a table can take an entry behind those it has.
pub open spec fn can_follow<C: Comparator, W: WritableFile, P: FilterPolicy, Z: Compressor>(
    builder: TableFileBuilder<C, W, P, Z>,
    key: Seq<u8>,
) -> bool {
    &&& builder.recipe().comparator.admits(key)
    &&& builder.draft().entries().len() > 0 ==> builder.recipe().comparator.less(
        builder.draft().last_key(),
        key,
    )
}

/// Adds entries in order to a table that has none.
fn add_all<C: Comparator, W: WritableFile, P: FilterPolicy, Z: Compressor>(
    builder: &mut TableFileBuilder<C, W, P, Z>,
    entries: &Vec<(Vec<u8>, Vec<u8>)>,
) -> (outcome: status::Result<()>)
    requires
        old(builder).wf(),
        old(builder).draft() == Draft::blank(),
        entries@.len() < u64::MAX,
        db_iterator::sorted(
            old(builder).recipe().comparator,
            table_iterator::pair_views(entries@),
        ),
    ensures
        outcome is Ok ==> {
            let pairs = table_iterator::pair_views(entries@);
            &&& final(builder).wf()
            &&& final(builder).recipe() == old(builder).recipe()
            &&& final(builder).prefix() == old(builder).prefix()
            &&& final(builder).sink().reliable() == old(builder).sink().reliable()
            &&& final(builder).draft() == drafted(old(builder).recipe(), Draft::blank(), pairs)
            &&& final(builder).draft().entries() == pairs
        },
        old(builder).sink().reliable() ==> outcome is Ok,
{
    let ghost recipe = builder.recipe();
    let ghost pairs = table_iterator::pair_views(entries@);
    let mut index: usize = 0;
    proof {
        assert(pairs.take(0) =~= Seq::<db_iterator::Pair>::empty());
        assert(Draft::blank().entries() =~= Seq::<db_iterator::Pair>::empty());
    }
    while index < entries.len()
        invariant
            index <= entries@.len(),
            entries@.len() < u64::MAX,
            builder.wf(),
            builder.recipe() == recipe,
            builder.prefix() == old(builder).prefix(),
            builder.sink().reliable() == old(builder).sink().reliable(),
            pairs == table_iterator::pair_views(entries@),
            db_iterator::sorted(recipe.comparator, pairs),
            builder.draft() == drafted(recipe, Draft::blank(), pairs.take(index as int)),
            builder.draft().entries() == pairs.take(index as int),
        decreases entries@.len() - index,
    {
        proof {
            let more = pairs.take(index + 1);
            assert(more.drop_last() =~= pairs.take(index as int));
            assert(more.last() == pairs[index as int]);
            assert(pairs[index as int].0 == entries@[index as int].0@);
            assert(pairs[index as int].1 == entries@[index as int].1@);
            builder.lemma_wf();
            if index > 0 {
                lemma_last_key(recipe, builder.draft());
                assert(pairs.take(index as int).last() == pairs[index - 1]);
            }
        }
        match builder.add(entries[index].0.as_slice(), entries[index].1.as_slice()) {
            Err(error) => {
                return Err(error);
            },
            Ok(_) => {},
        }
        proof {
            assert(pairs.take(index + 1) =~= pairs.take(index as int).push(pairs[index as int]));
        }
        index = index + 1;
    }
    assert(pairs.take(index as int) =~= pairs);
    Ok(())
}

/// Whether this is known of a table of some entries, with the given image.
pub open spec fn describes(
    meta: FileMetaData,
    number: u64,
    image: Seq<u8>,
    pairs: Seq<db_iterator::Pair>,
) -> bool {
    &&& meta.number == number
    &&& meta.file_size == image.len()
    &&& meta.smallest@ == pairs[0].0
    &&& meta.largest@ == pairs.last().0
}

/// The image of a table of some entries.
pub open spec fn table_image<C: Comparator, P: FilterPolicy, Z: Compressor>(
    recipe: Recipe<C, P, Z>,
    pairs: Seq<db_iterator::Pair>,
) -> Seq<u8> {
    recipe.finished(drafted(recipe, Draft::blank(), pairs)).image
}

/// Writes entries in order to the file of a table. Returns what is known of the table.
pub fn write_table<E: Env, C: Comparator, P: FilterPolicy, Z: Compressor>(
    env: &mut E,
    path: &str,
    file_number: u64,
    comparator: C,
    block_size: usize,
    restart_interval: usize,
    filter_policy: Option<Arc<P>>,
    compressor: Option<Arc<Z>>,
    entries: &Vec<(Vec<u8>, Vec<u8>)>,
) -> (written: status::Result<FileMetaData>)
    requires
        old(env).wf(),
        restart_interval >= 1,
        entries@.len() > 0,
        entries@.len() < u64::MAX,
        db_iterator::sorted(comparator, table_iterator::pair_views(entries@)),
    ensures
        final(env).wf(),
        final(env).locks() == old(env).locks(),
        final(env).reliable() == old(env).reliable(),
        written matches Ok(meta) ==> {
            let recipe = Recipe {
                comparator,
                block_size,
                interval: restart_interval,
                policy: filter_policy,
                compressor,
            };
            let pairs = table_iterator::pair_views(entries@);
            let image = table_image(recipe, pairs);
            &&& final(env).files() == old(env).files().insert(path@, image)
            &&& draft::finished_well(recipe, drafted(recipe, Draft::blank(), pairs))
            &&& describes(meta, file_number, image, pairs)
        },
        written is Ok ==> final(env).synced().contains(path@),
        written is Err ==> env::agree_but(old(env).files(), final(env).files(), path@),
        old(env).reliable() ==> written is Ok,
{
    let file = match env.new_writable_file(path) {
        Err(error) => {
            return Err(error);
        },
        Ok(file) => file,
    };
    let ghost opened = env.files();
    let mut builder = TableFileBuilder::with_options(
        comparator,
        block_size,
        restart_interval,
        file,
        filter_policy,
        compressor,
    );
    match add_all(&mut builder, entries) {
        Err(error) => {
            return Err(error);
        },
        Ok(_) => {},
    }
    let ghost recipe = builder.recipe();
    let ghost whole = builder.draft();
    let smallest = vstd::slice::slice_to_vec(entries[0].0.as_slice());
    let largest = vstd::slice::slice_to_vec(entries[entries.len() - 1].0.as_slice());
    let written = finish_table_output(env, path, builder, file_number, smallest, largest);
    proof {
        let image = recipe.finished(whole).image;
        assert(Seq::<u8>::empty() + image =~= image);
        if written is Ok {
            assert(env.files() =~= old(env).files().insert(path@, image));
        } else {
            assert(env::agree_but(old(env).files(), opened, path@));
            env::lemma_agree_but(old(env).files(), opened, env.files(), path@);
        }
    }
    written
}

/// The last key of a draft is that of its last entry.
pub proof fn lemma_last_key<C: Comparator, P: FilterPolicy, Z: Compressor>(
    recipe: Recipe<C, P, Z>,
    draft: Draft,
)
    requires
        recipe.sound(draft),
        draft.entries().len() > 0,
    ensures
        draft.last_key() == draft.entries().last().0,
{
    if draft.open.len() == 0 {
        if draft.blocks.len() > 0 {
            let last = draft.blocks.len() - 1;
            assert(draft.blocks[last].len() > 0);
            assert(draft::joined(draft.blocks) == draft::joined(draft.blocks.drop_last())
                + draft.blocks.last());
        }
    }
}

/// Adds an entry to a table, unless it is out of order.
pub fn add_in_order<C: Comparator, W: WritableFile, P: FilterPolicy, Z: Compressor>(
    builder: &mut TableFileBuilder<C, W, P, Z>,
    last_key: Option<&[u8]>,
    key: &[u8],
    value: &[u8],
    comparator: &C,
) -> (outcome: status::Result<()>)
    requires
        old(builder).wf(),
        *comparator == old(builder).recipe().comparator,
        match last_key {
            None => old(builder).draft().entries().len() == 0,
            Some(last) => old(builder).draft().entries().len() > 0
                && old(builder).draft().last_key() == last@ && comparator.admits(last@),
        },
    ensures
        final(builder).recipe() == old(builder).recipe(),
        final(builder).prefix() == old(builder).prefix(),
        outcome is Ok ==> {
            &&& final(builder).wf()
            &&& can_follow(*old(builder), key@)
            &&& final(builder).draft() == old(builder).recipe().added(
                old(builder).draft(),
                key@,
                value@,
            )
            &&& final(builder).draft().entries() == old(builder).draft().entries().push(
                (key@, value@),
            )
            &&& final(builder).sink().reliable() == old(builder).sink().reliable()
        },
        old(builder).sink().reliable() && can_follow(*old(builder), key@)
            && old(builder).draft().entries().len() < u64::MAX ==> outcome is Ok,
{
    if !comparator.accepts(key) {
        return Err(Status::corruption("table entry with a malformed key"));
    }
    match last_key {
        None => {},
        Some(last) => {
            if !crate::comparator::precedes(comparator, last, key) {
                return Err(Status::corruption("table entries out of order"));
            }
        },
    }
    if builder.num_entries() == u64::MAX {
        return Err(Status::corruption("too many table entries"));
    }
    builder.add(key, value)
}

} // verus!
