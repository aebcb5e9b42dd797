//! What the properties of a database come to.

use vstd::prelude::*;

use crate::db_impl::options::CompactionStats;
use crate::db_impl::property;
use crate::db_impl::property::LevelSummary;
use crate::db_impl::property::Property;
use crate::db_impl::sizes_laws;
use crate::format::NUM_LEVELS;
use crate::text;
use crate::version_set::FileMetaData;

verus! {

/// The property with the number of a level behind its name tells how many tables that level
/// has. There is none for a level that does not exist.
pub proof fn law_tables_are_counted(
    levels: Seq<Vec<FileMetaData>>,
    stats: Seq<CompactionStats>,
    level: u64,
    told: Option<Property>,
)
    requires
        property::property_is(
            levels,
            stats,
            "pulsearc-db.num-files-at-level"@ + text::decimal(level as nat),
            told,
        ),
    ensures
        level < NUM_LEVELS ==> (told matches Some(Property::Text(count)) && text::digits_value(
            count@,
        ) == levels[level as int]@.len()),
        level >= NUM_LEVELS ==> told is None,
{
    let start = "pulsearc-db.num-files-at-level"@;
    let name = start + text::decimal(level as nat);
    text::law_decimal_round_trip(level as nat);
    assert(name.skip(start.len() as int) =~= text::decimal(level as nat));
    assert(start.is_prefix_of(name)) by {
        assert(name.take(start.len() as int) =~= start);
    }
    assert(text::is_digit(text::decimal(level as nat)[0]));
    if level < NUM_LEVELS {
        text::law_decimal_round_trip(levels[level as int]@.len());
    }
}

/// Whether something is told of a level: it has tables, or took time.
pub open spec fn is_worth_telling(
    levels: Seq<Vec<FileMetaData>>,
    stats: Seq<CompactionStats>,
    level: int,
) -> bool {
    levels[level]@.len() > 0 || stats[level].micros != 0
}

/// Whether a line of the summary is right for its level.
pub open spec fn is_line(
    levels: Seq<Vec<FileMetaData>>,
    stats: Seq<CompactionStats>,
    line: LevelSummary,
) -> bool {
    let level = line.level as int;
    &&& line.files == levels[level]@.len()
    &&& line.total_bytes == sizes_laws::told(
        sizes_laws::total(sizes_laws::file_sizes(levels[level]@)),
    )
    &&& line.stats == stats[level]
}

proof fn lemma_summaries(
    levels: Seq<Vec<FileMetaData>>,
    stats: Seq<CompactionStats>,
    count: nat,
)
    requires
        count <= NUM_LEVELS,
    ensures
        ({
            let lines = property::summaries(levels, stats, count);
            &&& forall|i: int|
                0 <= i < lines.len() ==> (#[trigger] lines[i]).level < count && is_line(
                    levels,
                    stats,
                    lines[i],
                ) && is_worth_telling(levels, stats, lines[i].level as int)
            &&& forall|i: int, j: int|
                0 <= i < j < lines.len() ==> (#[trigger] lines[i]).level < (
                #[trigger] lines[j]).level
            &&& forall|level: int|
                0 <= level < count && #[trigger] is_worth_telling(levels, stats, level)
                    ==> exists|i: int|
                    0 <= i < lines.len() && (#[trigger] lines[i]).level == level
        }),
    decreases count,
{
    if count > 0 {
        let last = count - 1;
        lemma_summaries(levels, stats, last as nat);
        sizes_laws::law_size_sum(levels[last]@);
        assert(levels[last].len() == levels[last]@.len());
        let front = property::summaries(levels, stats, last as nat);
        let lines = property::summaries(levels, stats, count);
        assert forall|level: int|
            0 <= level < count && #[trigger] is_worth_telling(levels, stats, level)
            implies exists|i: int| 0 <= i < lines.len() && (#[trigger] lines[i]).level == level by {
            if level < last {
                let i = choose|i: int|
                    0 <= i < front.len() && (#[trigger] front[i]).level == level;
                assert(lines[i] == front[i]);
            } else {
                assert(lines[front.len() as int].level == level);
            }
        }
        assert forall|i: int| 0 <= i < lines.len() implies (#[trigger] lines[i]).level < count
            && is_line(levels, stats, lines[i]) && is_worth_telling(
            levels,
            stats,
            lines[i].level as int,
        ) by {
            if i < front.len() {
                assert(lines[i] == front[i]);
            } else {
                assert(lines[i] == property::summary_of(last, levels[last]@, stats[last]));
                assert(lines[i].level == last);
            }
        }
        assert forall|i: int, j: int| 0 <= i < j < lines.len() implies (
        #[trigger] lines[i]).level < (#[trigger] lines[j]).level by {
            assert(lines[i] == front[i]);
            if j < front.len() {
                assert(lines[j] == front[j]);
            }
        }
    }
}

/// The summary has a line for each level that has tables or took time, and no other, from
/// the first level on. A line tells how many tables its level has, the sum of their sizes,
/// and the statistics of the level.
pub proof fn law_summary_tells_levels(
    levels: Seq<Vec<FileMetaData>>,
    stats: Seq<CompactionStats>,
    told: Option<Property>,
)
    requires
        levels.len() == NUM_LEVELS,
        stats.len() == NUM_LEVELS,
        property::property_is(levels, stats, "pulsearc-db.stats"@, told),
    ensures
        told matches Some(Property::Summary(lines)) && {
            &&& forall|i: int|
                0 <= i < lines@.len() ==> (#[trigger] lines@[i]).level < levels.len() && is_line(
                    levels,
                    stats,
                    lines@[i],
                ) && is_worth_telling(levels, stats, lines@[i].level as int)
            &&& forall|i: int, j: int|
                0 <= i < j < lines@.len() ==> (#[trigger] lines@[i]).level < (
                #[trigger] lines@[j]).level
            &&& forall|level: int|
                0 <= level < levels.len() && #[trigger] is_worth_telling(levels, stats, level)
                    ==> exists|i: int|
                    0 <= i < lines@.len() && (#[trigger] lines@[i]).level == level
        },
{
    reveal_strlit("pulsearc-db.stats");
    reveal_strlit("pulsearc-db.num-files-at-level");
    let name = "pulsearc-db.stats"@;
    let other = "pulsearc-db.num-files-at-level"@;
    assert(!other.is_prefix_of(name)) by {
        assert(other.len() > name.len());
    }
    lemma_summaries(levels, stats, NUM_LEVELS as nat);
}

/// The bytes of a key in decimal, with commas between them: all of them, or the first eight
/// of a longer key.
pub open spec fn shown_key(key: Seq<u8>) -> Seq<char> {
    let shown = key.take(
        if key.len() < 8 {
            key.len() as int
        } else {
            8
        },
    );
    let parts = Seq::new(
        shown.len(),
        |i: int|
            if i == 0 {
                text::decimal(shown[i] as nat)
            } else {
                ", "@ + text::decimal(shown[i] as nat)
            },
    );
    "["@ + parts.flatten() + "]"@
}

/// The line of a table: its number, its size, and its first and last key.
pub open spec fn shown_table(file: FileMetaData) -> Seq<char> {
    "  "@ + text::decimal(file.number as nat) + ": "@ + text::decimal(file.file_size as nat)
        + " bytes ["@ + shown_key(file.smallest@) + ".."@ + shown_key(file.largest@) + "]\n"@
}

/// The lines of a level, if it has tables: its number, then its tables.
pub open spec fn shown_level(level: int, files: Seq<FileMetaData>) -> Seq<char> {
    if files.len() == 0 {
        Seq::empty()
    } else {
        "--- level "@ + text::decimal(level as nat) + " ---\n"@ + Seq::new(
            files.len(),
            |i: int| shown_table(files[i]),
        ).flatten()
    }
}

proof fn lemma_flatten_last<A>(parts: Seq<Seq<A>>)
    requires
        parts.len() > 0,
    ensures
        parts.flatten() == parts.drop_last().flatten() + parts.last(),
{
    assert(parts.drop_last().push(parts.last()) =~= parts);
    parts.drop_last().lemma_flatten_push(parts.last());
}

proof fn lemma_byte_list(bytes: Seq<u8>)
    ensures
        property::byte_list(bytes) == Seq::new(
            bytes.len(),
            |i: int|
                if i == 0 {
                    text::decimal(bytes[i] as nat)
                } else {
                    ", "@ + text::decimal(bytes[i] as nat)
                },
        ).flatten(),
    decreases bytes.len(),
{
    let parts = Seq::new(
        bytes.len(),
        |i: int|
            if i == 0 {
                text::decimal(bytes[i] as nat)
            } else {
                ", "@ + text::decimal(bytes[i] as nat)
            },
    );
    if bytes.len() > 0 {
        let front = bytes.drop_last();
        lemma_byte_list(front);
        lemma_flatten_last(parts);
        assert(parts.drop_last() =~= Seq::new(
            front.len(),
            |i: int|
                if i == 0 {
                    text::decimal(front[i] as nat)
                } else {
                    ", "@ + text::decimal(front[i] as nat)
                },
        ));
        assert(parts.last() == parts[bytes.len() - 1]);
        assert(property::byte_list(bytes) =~= parts.flatten());
    } else {
        assert(property::byte_list(bytes) =~= parts.flatten());
    }
}

proof fn lemma_key(key: Seq<u8>)
    ensures
        property::key_start(key) == shown_key(key),
{
    let shown = key.take(
        if key.len() < 8 {
            key.len() as int
        } else {
            8
        },
    );
    assert(shown =~= if key.len() > 8 {
        key.take(8)
    } else {
        key
    });
    lemma_byte_list(shown);
}

proof fn lemma_tables(files: Seq<FileMetaData>)
    ensures
        property::table_lines(files) == Seq::new(
            files.len(),
            |i: int| shown_table(files[i]),
        ).flatten(),
    decreases files.len(),
{
    let parts = Seq::new(files.len(), |i: int| shown_table(files[i]));
    if files.len() > 0 {
        let front = files.drop_last();
        lemma_tables(front);
        lemma_flatten_last(parts);
        lemma_key(files.last().smallest@);
        lemma_key(files.last().largest@);
        assert(parts.drop_last() =~= Seq::new(front.len(), |i: int| shown_table(front[i])));
        assert(parts.last() == shown_table(files.last()));
    } else {
        assert(property::table_lines(files) =~= parts.flatten());
    }
}

proof fn lemma_listing(levels: Seq<Vec<FileMetaData>>, count: nat)
    ensures
        property::listing(levels, count) == Seq::new(
            count,
            |level: int| shown_level(level, levels[level]@),
        ).flatten(),
    decreases count,
{
    let parts = Seq::new(count, |level: int| shown_level(level, levels[level]@));
    if count > 0 {
        let last = count - 1;
        lemma_listing(levels, last as nat);
        lemma_flatten_last(parts);
        lemma_tables(levels[last]@);
        assert(parts.drop_last() =~= Seq::new(
            last as nat,
            |level: int| shown_level(level, levels[level]@),
        ));
        assert(parts.last() == shown_level(last, levels[last]@));
        assert(property::level_lines(last as nat, levels[last]@) =~= shown_level(
            last,
            levels[last]@,
        ));
    } else {
        assert(property::listing(levels, count) =~= parts.flatten());
    }
}

/// The listing of the tables has all levels, one after the other, and of each level that has
/// tables its number and a line for each table, in order.
pub proof fn law_listing_shows_tables(
    levels: Seq<Vec<FileMetaData>>,
    stats: Seq<CompactionStats>,
    told: Option<Property>,
)
    requires
        levels.len() == NUM_LEVELS,
        property::property_is(levels, stats, "pulsearc-db.sstables"@, told),
    ensures
        told matches Some(Property::Text(shown)) && shown@ == Seq::new(
            levels.len(),
            |level: int| shown_level(level, levels[level]@),
        ).flatten(),
{
    reveal_strlit("pulsearc-db.stats");
    reveal_strlit("pulsearc-db.sstables");
    reveal_strlit("pulsearc-db.num-files-at-level");
    let name = "pulsearc-db.sstables"@;
    let other = "pulsearc-db.num-files-at-level"@;
    assert(!other.is_prefix_of(name)) by {
        assert(other.len() > name.len());
    }
    assert(name != "pulsearc-db.stats"@) by {
        assert(name.len() != "pulsearc-db.stats"@.len());
    }
    lemma_listing(levels, NUM_LEVELS as nat);
}

} // verus!
