//! Writing a memtable to a table.

use vstd::prelude::*;

use std::sync::Arc;

use crate::comparator;
use crate::comparator::Comparator;
use crate::db_impl::table_output;
use crate::db_iter::db_iterator;
use crate::env;
use crate::env::Env;
use crate::filename;
use crate::filter::FilterPolicy;
use crate::format::InternalKeyComparator;
use crate::memtable::SharedMemTable;
use crate::status;
use crate::status::Status;
use crate::table::draft;
use crate::table::draft::Draft;
use crate::table::draft::Recipe;
use crate::table::table_iterator;
use crate::table::Compressor;
use crate::version_set::FileMetaData;

verus! {

/// Writes the entries of a memtable to the table of a number. Returns what is known of
/// the table; `None` if there are no entries, and then there is no table.
pub fn flush_memtable<E: Env, C: Comparator, P: FilterPolicy, Z: Compressor>(
    env: &mut E,
    dbname: &str,
    file_number: u64,
    mem: &SharedMemTable<C>,
    block_size: usize,
    restart_interval: usize,
    filter_policy: Option<Arc<P>>,
    compressor: Option<Arc<Z>>,
) -> (flushed: status::Result<Option<FileMetaData>>)
    requires
        old(env).wf(),
        mem.table().wf(),
        restart_interval >= 1,
    ensures
        final(env).wf(),
        final(env).locks() == old(env).locks(),
        final(env).reliable() == old(env).reliable(),
        ({
            let path = filename::numbered(dbname@, file_number, "ldb"@);
            let pairs = mem.table().entries();
            let recipe = Recipe {
                comparator: mem.table().order(),
                block_size,
                interval: restart_interval,
                policy: filter_policy,
                compressor,
            };
            let image = table_output::table_image(recipe, pairs);
            match flushed {
                Ok(None) => pairs.len() == 0 && final(env).files() == old(env).files(),
                Ok(Some(meta)) => {
                    &&& pairs.len() > 0
                    &&& final(env).files() == old(env).files().insert(path, image)
                    &&& final(env).synced().contains(path)
                    &&& draft::finished_well(
                        recipe,
                        table_output::drafted(recipe, Draft::blank(), pairs),
                    )
                    &&& table_output::describes(meta, file_number, image, pairs)
                },
                Err(_) => pairs.len() > 0 && env::agree_but(
                    old(env).files(),
                    final(env).files(),
                    path,
                ),
            }
        }),
        old(env).reliable() && mem.table().entries().len() < u64::MAX ==> flushed is Ok,
{
    let entries = mem.collect_entries();
    assert(table_iterator::pair_views(entries@) =~= mem.table().entries());
    if entries.len() == 0 {
        return Ok(None);
    }
    if entries.len() as u64 == u64::MAX {
        return Err(Status::corruption("too many table entries"));
    }
    let comparator = InternalKeyComparator::new(comparator::copy_of(mem.user_comparator()));
    proof {
        mem.table().lemma_sorted();
        mem.table().order().lemma_is_over();
    }
    let path = filename::table_file_name(dbname, file_number);
    match table_output::write_table(
        env,
        path.as_str(),
        file_number,
        comparator,
        block_size,
        restart_interval,
        filter_policy,
        compressor,
        &entries,
    ) {
        Err(error) => Err(error),
        Ok(meta) => Ok(Some(meta)),
    }
}

} // verus!
