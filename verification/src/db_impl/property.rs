//! What a database tells of its tables.

use vstd::prelude::*;

use crate::comparator::Comparator;
use crate::db_impl::compaction;
use crate::db_impl::options::CompactionStats;
use crate::db_impl::state::DBImplCore;
use crate::format::NUM_LEVELS;
use crate::text;
use crate::version_set::FileMetaData;

verus! {

/// One line of the summary of the levels.
#[derive(Debug, Copy, Clone)]
pub struct LevelSummary {
    pub level: usize,
    pub files: usize,
    /// The bytes of its tables.
    pub total_bytes: u64,
    pub stats: CompactionStats,
}

/// What a property is.
#[derive(Debug)]
pub enum Property {
    Text(String),
    /// The lines of the summary of the levels.
    Summary(Vec<LevelSummary>),
}

/// Bytes in decimal, with commas between them.
pub open spec fn byte_list(bytes: Seq<u8>) -> Seq<char>
    decreases bytes.len(),
{
    if bytes.len() == 0 {
        Seq::empty()
    } else if bytes.len() == 1 {
        text::decimal(bytes[0] as nat)
    } else {
        byte_list(bytes.drop_last()) + ", "@ + text::decimal(bytes.last() as nat)
    }
}

/// The first bytes of a key, in brackets.
pub open spec fn key_start(key: Seq<u8>) -> Seq<char> {
    "["@ + byte_list(
        if key.len() > 8 {
            key.take(8)
        } else {
            key
        },
    ) + "]"@
}

/// The line of a table.
pub open spec fn table_line(file: FileMetaData) -> Seq<char> {
    "  "@ + text::decimal(file.number as nat) + ": "@ + text::decimal(file.file_size as nat)
        + " bytes ["@ + key_start(file.smallest@) + ".."@ + key_start(file.largest@) + "]\n"@
}

/// The lines of the tables of a level.
pub open spec fn table_lines(files: Seq<FileMetaData>) -> Seq<char>
    decreases files.len(),
{
    if files.len() == 0 {
        Seq::empty()
    } else {
        table_lines(files.drop_last()) + table_line(files.last())
    }
}

/// The lines of a level that has tables.
pub open spec fn level_lines(level: nat, files: Seq<FileMetaData>) -> Seq<char> {
    if files.len() == 0 {
        Seq::empty()
    } else {
        "--- level "@ + text::decimal(level) + " ---\n"@ + table_lines(files)
    }
}

/// The lines of the first levels.
pub open spec fn listing(levels: Seq<Vec<FileMetaData>>, count: nat) -> Seq<char>
    decreases count,
{
    if count == 0 {
        Seq::empty()
    } else {
        listing(levels, (count - 1) as nat) + level_lines(
            (count - 1) as nat,
            levels[count - 1]@,
        )
    }
}

/// What is told of a level.
pub open spec fn summary_of(
    level: int,
    files: Seq<FileMetaData>,
    stats: CompactionStats,
) -> LevelSummary {
    let sum = compaction::size_sum(files);
    LevelSummary {
        level: level as usize,
        files: files.len() as usize,
        total_bytes: if sum <= u64::MAX {
            sum as u64
        } else {
            u64::MAX
        },
        stats,
    }
}

/// What is told of the first levels: of those that have tables, or took time.
pub open spec fn summaries(
    levels: Seq<Vec<FileMetaData>>,
    stats: Seq<CompactionStats>,
    count: nat,
) -> Seq<LevelSummary>
    decreases count,
{
    if count == 0 {
        Seq::empty()
    } else {
        let level = count - 1;
        let before = summaries(levels, stats, level as nat);
        if stats[level].micros == 0 && levels[level]@.len() == 0 {
            before
        } else {
            before.push(summary_of(level, levels[level]@, stats[level]))
        }
    }
}

/// The start of the property that counts the tables of a level; the number of the
/// level follows.
pub open spec fn count_prefix() -> Seq<char> {
    "pulsearc-db.num-files-at-level"@
}

/// Whether this is what the property of a name is.
pub open spec fn property_is(
    levels: Seq<Vec<FileMetaData>>,
    stats: Seq<CompactionStats>,
    name: Seq<char>,
    property: Option<Property>,
) -> bool {
    if count_prefix().is_prefix_of(name) {
        match text::parsed_number(name.skip(count_prefix().len() as int)) {
            Some(level) => if level < NUM_LEVELS {
                property matches Some(Property::Text(told)) && told@ == text::decimal(
                    levels[level as int]@.len(),
                )
            } else {
                property is None
            },
            None => property is None,
        }
    } else if name == "pulsearc-db.stats"@ {
        property matches Some(Property::Summary(lines)) && lines@ == summaries(
            levels,
            stats,
            NUM_LEVELS as nat,
        )
    } else if name == "pulsearc-db.sstables"@ {
        property matches Some(Property::Text(told)) && told@ == listing(
            levels,
            NUM_LEVELS as nat,
        )
    } else {
        property is None
    }
}

/// Appends the first bytes of a key, in brackets.
fn push_key_start(out: &mut String, key: &Vec<u8>)
    ensures
        final(out)@ == old(out)@ + key_start(key@),
{
    let ghost shown = if key@.len() > 8 {
        key@.take(8)
    } else {
        key@
    };
    let ghost before = out@ + "["@;
    let count: usize = if key.len() > 8 {
        8
    } else {
        key.len()
    };
    out.append("[");
    assert(shown.take(0) =~= Seq::<u8>::empty());
    assert(out@ =~= before + byte_list(shown.take(0)));
    let mut index: usize = 0;
    while index < count
        invariant
            index <= count,
            count == shown.len(),
            count <= key@.len(),
            forall|i: int| 0 <= i < count ==> shown[i] == key@[i],
            out@ == before + byte_list(shown.take(index as int)),
        decreases count - index,
    {
        proof {
            let more = shown.take(index + 1);
            assert(more.drop_last() =~= shown.take(index as int));
            assert(more.last() == key@[index as int]);
        }
        if index > 0 {
            out.append(", ");
        }
        text::push_decimal(out, key[index] as u64);
        assert(out@ =~= before + byte_list(shown.take(index + 1)));
        index = index + 1;
    }
    assert(shown.take(count as int) =~= shown);
    out.append("]");
    assert(out@ =~= old(out)@ + key_start(key@));
}

/// Appends the line of a table.
fn push_table_line(out: &mut String, file: &FileMetaData)
    ensures
        final(out)@ == old(out)@ + table_line(*file),
{
    out.append("  ");
    text::push_decimal(out, file.number);
    out.append(": ");
    text::push_decimal(out, file.file_size);
    out.append(" bytes [");
    push_key_start(out, &file.smallest);
    out.append("..");
    push_key_start(out, &file.largest);
    out.append("]\n");
    assert(out@ =~= old(out)@ + table_line(*file));
}

/// Appends the lines of a level.
fn push_level_lines(out: &mut String, level: usize, files: &Vec<FileMetaData>)
    ensures
        final(out)@ == old(out)@ + level_lines(level as nat, files@),
{
    if files.len() == 0 {
        assert(out@ =~= old(out)@ + level_lines(level as nat, files@));
        return;
    }
    out.append("--- level ");
    text::push_decimal(out, level as u64);
    out.append(" ---\n");
    let ghost before = out@;
    assert(files@.take(0) =~= Seq::<FileMetaData>::empty());
    assert(out@ =~= before + table_lines(files@.take(0)));
    let mut index: usize = 0;
    while index < files.len()
        invariant
            index <= files@.len(),
            out@ == before + table_lines(files@.take(index as int)),
        decreases files@.len() - index,
    {
        push_table_line(out, &files[index]);
        proof {
            let more = files@.take(index + 1);
            assert(more.drop_last() =~= files@.take(index as int));
            assert(more.last() == files@[index as int]);
            assert(out@ =~= before + table_lines(more));
        }
        index = index + 1;
    }
    assert(files@.take(index as int) =~= files@);
    assert(out@ =~= old(out)@ + level_lines(level as nat, files@));
}

/// The bytes of some tables, or the greatest number there is.
pub fn total_bytes(files: &Vec<FileMetaData>) -> (total: u64)
    ensures
        total == if compaction::size_sum(files@) <= u64::MAX {
            compaction::size_sum(files@) as int
        } else {
            u64::MAX as int
        },
{
    let mut total: u64 = 0;
    let mut index: usize = 0;
    assert(files@.take(0) =~= Seq::<FileMetaData>::empty());
    while index < files.len()
        invariant
            index <= files@.len(),
            total == if compaction::size_sum(files@.take(index as int)) <= u64::MAX {
                compaction::size_sum(files@.take(index as int)) as int
            } else {
                u64::MAX as int
            },
        decreases files@.len() - index,
    {
        proof {
            let more = files@.take(index + 1);
            assert(more.drop_last() =~= files@.take(index as int));
            assert(more.last() == files@[index as int]);
        }
        total = total.saturating_add(files[index].file_size);
        index = index + 1;
    }
    assert(files@.take(index as int) =~= files@);
    total
}

impl<C: Comparator> DBImplCore<C> {
    /// Looks up a property:
    ///   * `pulsearc-db.num-files-at-level<N>`: how many tables level N has
    ///   * `pulsearc-db.stats`: the summary of the levels
    ///   * `pulsearc-db.sstables`: a listing of the tables
    ///
    /// `levels` holds the tables by level. There is no other property.
    pub fn get_property(&self, property: &str, levels: &Vec<Vec<FileMetaData>>) -> (told: Option<
        Property,
    >)
        requires
            levels@.len() == NUM_LEVELS,
            self.stats@.len() == NUM_LEVELS,
        ensures
            property_is(levels@, self.stats@, property@, told),
    {
        if text::has_prefix(property, "pulsearc-db.num-files-at-level") {
            let start: usize = "pulsearc-db.num-files-at-level".unicode_len();
            let end: usize = property.unicode_len();
            let number = text::parse_number(property.substring_char(start, end));
            assert(property@.subrange(start as int, end as int) =~= property@.skip(start as int));
            return match number {
                Some(level) => if level < NUM_LEVELS as u64 {
                    let count: usize = levels[level as usize].len();
                    Some(Property::Text(text::decimal_text(count as u64)))
                } else {
                    None
                },
                None => None,
            };
        }
        if text::same_text(property, "pulsearc-db.stats") {
            let mut lines: Vec<LevelSummary> = Vec::new();
            let mut level: usize = 0;
            while level < NUM_LEVELS
                invariant
                    level <= NUM_LEVELS,
                    levels@.len() == NUM_LEVELS,
                    self.stats@.len() == NUM_LEVELS,
                    lines@ == summaries(levels@, self.stats@, level as nat),
                decreases NUM_LEVELS - level,
            {
                let files = &levels[level];
                let stats = self.stats[level];
                if !(stats.micros == 0 && files.len() == 0) {
                    lines.push(
                        LevelSummary {
                            level,
                            files: files.len(),
                            total_bytes: total_bytes(files),
                            stats,
                        },
                    );
                }
                level = level + 1;
            }
            return Some(Property::Summary(lines));
        }
        if text::same_text(property, "pulsearc-db.sstables") {
            let mut out = String::new();
            let mut level: usize = 0;
            assert(out@ =~= Seq::<char>::empty());
            while level < NUM_LEVELS
                invariant
                    level <= NUM_LEVELS,
                    levels@.len() == NUM_LEVELS,
                    out@ == listing(levels@, level as nat),
                decreases NUM_LEVELS - level,
            {
                push_level_lines(&mut out, level, &levels[level]);
                level = level + 1;
            }
            return Some(Property::Text(out));
        }
        None
    }
}

} // verus!
