//! Logging groups of updates, and replaying a log.

use vstd::prelude::*;

use crate::coding;
use crate::comparator::Comparator;
use crate::db_impl::enter;
use crate::db_impl::write_queue;
use crate::db_iter::seen;
use crate::env::Env;
use crate::env::SequentialFile;
use crate::env::WritableFile;
use crate::filename;
use crate::log;
use crate::log::LogSequentialReader;
use crate::log::LogWriter;
use crate::log::Logical;
use crate::memtable::SharedMemTable;
use crate::status;
use crate::status::Status;
use crate::write_batch;
use crate::write_batch::Change;
use crate::write_batch::WriteBatch;

verus! {

/// What comes of an append to the log and the sync behind it, if there was one: the first
/// error, and whether it was the sync that failed.
pub fn group_outcome(
    appended: status::Result<()>,
    synced: Option<status::Result<()>>,
) -> (logged: (status::Result<()>, bool))
    ensures
        logged == match (appended, synced) {
            (Err(error), _) => (Err::<(), Status>(error), false),
            (Ok(_), Some(Err(error))) => (Err::<(), Status>(error), true),
            (Ok(_), _) => (Ok::<(), Status>(()), false),
        },
{
    match appended {
        Err(error) => (Err(error), false),
        Ok(_) => match synced {
            Some(Err(error)) => (Err(error), true),
            _ => (Ok(()), false),
        },
    }
}

/// Whether a group was appended to a log: how much its last block held before and holds
/// after, and what was written.
pub open spec fn is_logged(
    sequence: u64,
    group: WriteBatch,
    offset: int,
    written: Seq<u8>,
    offset_after: int,
    written_after: Seq<u8>,
) -> bool {
    let record = write_batch::batch_bytes(sequence, group.counted(), group.updates_bytes());
    &&& written_after == written + log::framed(offset, record, true)
    &&& offset_after == log::offset_after(offset, record.len() as int)
}

/// Appends a group to the log, and syncs the log if that is asked for. Returns how it
/// came out, and whether it was the sync that failed.
pub fn log_group<W: WritableFile>(
    writer: &mut LogWriter,
    file: &mut W,
    sequence: u64,
    group: &WriteBatch,
    sync: bool,
) -> (logged: (status::Result<()>, bool))
    requires
        old(writer).wf(),
    ensures
        final(writer).wf(),
        final(writer).log() == old(writer).log(),
        logged.0 is Ok ==> is_logged(
            sequence,
            *group,
            old(writer).offset(),
            old(file).written(),
            final(writer).offset(),
            final(file).written(),
        ) && final(file).reliable() == old(file).reliable(),
        sync && logged.0 is Ok ==> final(file).synced() == final(file).written().len(),
        logged.1 ==> sync && logged.0 is Err,
        logged.1 == (final(file).failed_syncs() > old(file).failed_syncs()),
        old(file).reliable() && group.updates_bytes().len() + 12 <= usize::MAX ==> logged.0 is Ok,
{
    let mut head: Vec<u8> = Vec::new();
    coding::put_fixed64(&mut head, sequence);
    proof {
        coding::lemma_le_bytes_len(sequence as nat, 8);
        coding::lemma_le_bytes_len(group.counted() as nat, 4);
    }
    let tail = group.unnumbered();
    if tail.len() > usize::MAX - 8 {
        return (Err(Status::invalid_argument("batch is too large for the log")), false);
    }
    let ghost record = write_batch::batch_bytes(sequence, group.counted(), group.updates_bytes());
    assert(head@ + tail@ =~= record);
    let appended = writer.add_record_pair_to(file, head.as_slice(), tail.as_slice());
    let synced = if sync && appended.is_ok() {
        Some(file.sync())
    } else {
        None
    };
    group_outcome(appended, synced)
}

// ---------------------------------------------------------------------------
// What replaying a log does
// ---------------------------------------------------------------------------

/// What a record of a log says.
pub enum BatchRead {
    /// The record is too short for a batch.
    Short,
    Batch { sequence: u64, count: u32, changes: Seq<Change>, problem: Option<Seq<char>> },
}

/// Reads a record of a log.
pub open spec fn read_batch(record: Seq<u8>) -> BatchRead {
    if record.len() < write_batch::HEADER_SIZE {
        BatchRead::Short
    } else {
        let count = coding::le_value(record.subrange(8, 12)) as u32;
        let (changes, problem) = write_batch::read_changes(record.skip(12));
        BatchRead::Batch {
            sequence: coding::le_value(record.take(8)) as u64,
            count,
            changes,
            problem: if problem is None && changes.len() != count {
                Some("WriteBatch has wrong count"@)
            } else {
                problem
            },
        }
    }
}

/// How far a replay has come.
pub struct Replay {
    /// The entries of the memtable.
    pub contents: Map<Seq<u8>, Seq<u8>>,
    /// How many entries there are.
    pub held: nat,
    /// The greatest sequence number.
    pub max_sequence: u64,
    /// How many bytes were entered.
    pub bytes: usize,
}

/// The sequence number of the last update of a batch.
pub open spec fn last_of(sequence: u64, count: u32) -> u64 {
    if count > 0 {
        (sequence + count - 1) as u64
    } else if sequence > 0 {
        (sequence - 1) as u64
    } else {
        0
    }
}

/// The greater of two numbers.
pub open spec fn greater(a: u64, b: u64) -> u64 {
    if a > b {
        a
    } else {
        b
    }
}

/// Replays a record. Also tells what is wrong with it, if anything is.
pub open spec fn replay_record<C: Comparator>(user: C, before: Replay, record: Seq<u8>) -> (
    Replay,
    Option<Seq<char>>,
) {
    match read_batch(record) {
        BatchRead::Short => (before, Some("malformed WriteBatch (too small)"@)),
        BatchRead::Batch { sequence, count, changes, problem } => {
            let start = sequence as nat;
            let entered = enter::entered_count(user, before.contents, start, changes);
            if before.held + changes.len() + 2 >= usize::MAX {
                (before, Some("WriteBatch: an update cannot be entered"@))
            } else {
                let after = Replay {
                    contents: seen::applied(
                        before.contents,
                        start,
                        changes.take(entered as int),
                    ),
                    held: before.held + entered,
                    ..before
                };
                if entered < changes.len() {
                    (after, Some("WriteBatch: an update cannot be entered"@))
                } else if problem is Some {
                    (after, problem)
                } else {
                    (
                        Replay {
                            max_sequence: greater(last_of(sequence, count), before.max_sequence),
                            bytes: enter::at_most(
                                (before.bytes + enter::at_most(
                                    enter::entered_bytes(start, changes),
                                )) as nat,
                            ),
                            ..after
                        },
                        None,
                    )
                }
            }
        },
    }
}

/// Replays the records of a log. At the first that is damaged the replay stops; when
/// it is paranoid it fails.
pub open spec fn replay_log<C: Comparator>(
    user: C,
    bytes: Seq<u8>,
    cursor: int,
    paranoid: bool,
    before: Replay,
) -> (Replay, Option<Seq<char>>)
    decreases bytes.len() - cursor,
{
    match log::next_record(bytes, cursor, None) {
        Logical::End => (before, None),
        Logical::Fault { text, at: _ } => (
            before,
            if paranoid {
                Some(text)
            } else {
                None
            },
        ),
        Logical::Record { data, next } => {
            let (after, problem) = replay_record(user, before, data);
            match problem {
                Some(text) => (
                    after,
                    if paranoid {
                        Some(text)
                    } else {
                        None
                    },
                ),
                None => if cursor < next <= bytes.len() {
                    replay_log(user, bytes, next, paranoid, after)
                } else {
                    (after, None)
                },
            }
        },
    }
}

/// A record lies behind the cursor and within the log.
pub proof fn lemma_record_bounds(bytes: Seq<u8>, cursor: int, partial: Option<Seq<u8>>)
    requires
        0 <= cursor,
    ensures
        log::next_record(bytes, cursor, partial) matches Logical::Record { data, next }
            ==> cursor < next <= bytes.len(),
    decreases bytes.len() - cursor,
{
    log::lemma_physical_bounds(bytes, cursor);
    match log::next_physical(bytes, cursor) {
        log::Physical::Fragment { kind, payload, next } => match log::absorbed(
            kind,
            payload,
            partial,
        ) {
            log::Absorbed::More(data) => {
                lemma_record_bounds(bytes, next, Some(data));
            },
            _ => {},
        },
        _ => {},
    }
}

/// How a memtable stands for a replay.
pub open spec fn replay_of<C: Comparator>(
    mem: SharedMemTable<C>,
    max_sequence: u64,
    bytes: usize,
) -> Replay {
    Replay {
        contents: enter::mem_contents(mem),
        held: mem.table().entries().len(),
        max_sequence,
        bytes,
    }
}

/// Enters a record of a log into a memtable.
pub(crate) fn enter_record<C: Comparator>(
    mem: &mut SharedMemTable<C>,
    record: &[u8],
    max_sequence: u64,
    bytes: usize,
) -> (entered: status::Result<(u64, usize)>)
    requires
        enter::mem_sound(*old(mem)),
    ensures
        enter::mem_sound(*final(mem)),
        final(mem).table().order() == old(mem).table().order(),
        ({
            let (after, problem) = replay_record(
                enter::mem_user(*old(mem)),
                replay_of(*old(mem), max_sequence, bytes),
                record@,
            );
            match problem {
                Some(text) => {
                    &&& entered matches Err(error)
                    &&& error.says(status::Code::Corruption, text)
                    &&& replay_of(*final(mem), max_sequence, bytes) == after
                },
                None => {
                    &&& entered matches Ok(now)
                    &&& replay_of(*final(mem), now.0, now.1) == after
                },
            }
        }),
{
    let mut batch = WriteBatch::new();
    match batch.set_contents(record) {
        Err(error) => {
            return Err(error);
        },
        Ok(_) => {},
    }
    proof {
        lemma_read_batch(
            record@,
            batch.first_sequence(),
            batch.counted(),
            batch.updates_bytes(),
        );
    }
    let sequence: u64 = batch.sequence();
    let count: u32 = batch.count();
    let (updates, problem) = batch.updates();
    let ghost changes = write_batch::changes(updates@);
    assert(changes.take(changes.len() as int) =~= changes);
    let (added, all) = enter::enter_updates(mem, sequence, updates.as_slice());
    if !all {
        return Err(Status::corruption("WriteBatch: an update cannot be entered"));
    }
    match problem {
        Some(error) => {
            return Err(error);
        },
        None => {},
    }
    proof {
        lemma_all_in_range(
            enter::mem_user(*old(mem)),
            enter::mem_contents(*old(mem)),
            sequence as nat,
            changes,
        );
    }
    let end: u64 = if count > 0 {
        sequence + (count - 1) as u64
    } else if sequence > 0 {
        sequence - 1
    } else {
        0
    };
    let total: usize = match bytes.checked_add(added) {
        Some(total) => total,
        None => usize::MAX,
    };
    let latest: u64 = if end > max_sequence {
        end
    } else {
        max_sequence
    };
    Ok((latest, total))
}

pub proof fn lemma_read_batch(record: Seq<u8>, sequence: u64, count: u32, body: Seq<u8>)
    requires
        record == write_batch::batch_bytes(sequence, count, body),
    ensures
        record.len() == 12 + body.len(),
        coding::le_value(record.take(8)) == sequence,
        coding::le_value(record.subrange(8, 12)) == count,
        record.skip(12) == body,
{
    coding::lemma_pow256_values();
    coding::lemma_le_bytes_len(sequence as nat, 8);
    coding::lemma_le_bytes_len(count as nat, 4);
    coding::law_fixed_round_trip(sequence as nat, 8);
    coding::law_fixed_round_trip(count as nat, 4);
    assert(record.take(8) =~= coding::le_bytes(sequence as nat, 8));
    assert(record.subrange(8, 12) =~= coding::le_bytes(count as nat, 4));
    assert(record.skip(12) =~= body);
}

proof fn lemma_all_in_range<C: Comparator>(
    user: C,
    contents: Map<Seq<u8>, Seq<u8>>,
    start: nat,
    changes: Seq<Change>,
)
    requires
        enter::entered_count(user, contents, start, changes) == changes.len(),
    ensures
        changes.len() > 0 ==> start + changes.len() <= crate::format::MAX_SEQUENCE_NUMBER + 1,
{
    if changes.len() > 0 {
        enter::lemma_count_bound(user, contents, start, changes.drop_last());
    }
}

/// What replaying the first `count` records of a log comes to, where they can all be read and
/// entered.
pub open spec fn replay_first<C: Comparator>(
    user: C,
    bytes: Seq<u8>,
    cursor: int,
    count: nat,
    before: Replay,
) -> Option<Replay>
    decreases count,
{
    if count == 0 {
        Some(before)
    } else {
        match log::next_record(bytes, cursor, None) {
            Logical::Record { data, next } => {
                let (after, problem) = replay_record(user, before, data);
                if problem is None {
                    replay_first(user, bytes, next, (count - 1) as nat, after)
                } else {
                    None
                }
            },
            _ => None,
        }
    }
}

/// Whether a replay went through the log: as far as its records can be read and entered.
pub open spec fn is_replay<C: Comparator>(
    user: C,
    bytes: Seq<u8>,
    cursor: int,
    paranoid: bool,
    before: Replay,
    mem: SharedMemTable<C>,
    replayed: status::Result<(u64, usize)>,
) -> bool {
    let (after, problem) = replay_log(user, bytes, cursor, paranoid, before);
    &&& enter::mem_contents(mem) == after.contents
    &&& mem.table().entries().len() == after.held
    &&& match problem {
        Some(text) => replayed matches Err(error) && error.says(status::Code::Corruption, text),
        None => replayed == Ok::<(u64, usize), Status>((after.max_sequence, after.bytes)),
    }
}

/// Whether a replay ended early, as the record behind the first ones could not be read from
/// the file. A paranoid one fails then.
pub open spec fn is_cut_replay<C: Comparator>(
    user: C,
    bytes: Seq<u8>,
    cursor: int,
    paranoid: bool,
    before: Replay,
    mem: SharedMemTable<C>,
    replayed: status::Result<(u64, usize)>,
) -> bool {
    (paranoid ==> replayed is Err) && exists|count: nat| #[trigger]
        is_replay_of_first(user, bytes, cursor, count, before, mem, replayed)
}

/// Whether just the first `count` records of a log were replayed.
pub open spec fn is_replay_of_first<C: Comparator>(
    user: C,
    bytes: Seq<u8>,
    cursor: int,
    count: nat,
    before: Replay,
    mem: SharedMemTable<C>,
    replayed: status::Result<(u64, usize)>,
) -> bool {
    &&& replay_first(user, bytes, cursor, count, before) matches Some(after)
    &&& enter::mem_contents(mem) == after.contents
    &&& mem.table().entries().len() == after.held
    &&& replayed matches Ok(got) ==> got == (after.max_sequence, after.bytes)
}

/// Replays a log into a memtable. Returns the greatest sequence number and how many
/// bytes were entered.
pub fn replay_log_file<C: Comparator, F: SequentialFile>(
    file: F,
    mem: &mut SharedMemTable<C>,
    paranoid: bool,
) -> (replayed: status::Result<(u64, usize)>)
    requires
        enter::mem_sound(*old(mem)),
    ensures
        enter::mem_sound(*final(mem)),
        final(mem).table().order() == old(mem).table().order(),
        ({
            let before = replay_of(*old(mem), 0, 0);
            let user = enter::mem_user(*old(mem));
            ||| is_replay(user, file.rest(), 0, paranoid, before, *final(mem), replayed)
            ||| !file.reliable() && is_cut_replay(
                user,
                file.rest(),
                0,
                paranoid,
                before,
                *final(mem),
                replayed,
            )
        }),
{
    let mut reader = LogSequentialReader::new(file);
    replay_records(&mut reader, mem, paranoid)
}

/// Replays the records that a reader has to come.
fn replay_records<C: Comparator, F: SequentialFile>(
    reader: &mut LogSequentialReader<F>,
    mem: &mut SharedMemTable<C>,
    paranoid: bool,
) -> (replayed: status::Result<(u64, usize)>)
    requires
        enter::mem_sound(*old(mem)),
        old(reader).wf(),
        0 <= old(reader).place(),
    ensures
        enter::mem_sound(*final(mem)),
        final(mem).table().order() == old(mem).table().order(),
        ({
            let before = replay_of(*old(mem), 0, 0);
            let user = enter::mem_user(*old(mem));
            let (bytes, place) = (old(reader).log(), old(reader).place());
            ||| is_replay(user, bytes, place, paranoid, before, *final(mem), replayed)
            ||| !old(reader).reliable() && is_cut_replay(
                user,
                bytes,
                place,
                paranoid,
                before,
                *final(mem),
                replayed,
            )
        }),
{
    let ghost user = enter::mem_user(*mem);
    let ghost whole = reader.log();
    let ghost goal = replay_log(user, whole, reader.place(), paranoid, replay_of(*mem, 0, 0));
    let ghost from = reader.place();
    let ghost start = replay_of(*mem, 0, 0);
    let ghost mut count: nat = 0;
    let mut max_sequence: u64 = 0;
    let mut bytes: usize = 0;
    loop
        invariant
            enter::mem_sound(*mem),
            mem.table().order() == old(mem).table().order(),
            user == enter::mem_user(*old(mem)),
            from == old(reader).place(),
            start == replay_of(*old(mem), 0, 0),
            forall|more: nat| #[trigger]
                replay_first(
                    user,
                    whole,
                    reader.place(),
                    more,
                    replay_of(*mem, max_sequence, bytes),
                ) == replay_first(user, whole, from, count + more, start),
            reader.wf(),
            reader.reliable() == old(reader).reliable(),
            reader.log() == whole,
            whole == old(reader).log(),
            0 <= reader.place(),
            goal == replay_log(
                user,
                whole,
                reader.place(),
                paranoid,
                replay_of(*mem, max_sequence, bytes),
            ),
            goal == replay_log(
                user,
                whole,
                old(reader).place(),
                paranoid,
                replay_of(*old(mem), 0, 0),
            ),
        decreases whole.len() - reader.place(),
    {
        let ghost place = reader.place();
        let ghost state = replay_of(*mem, max_sequence, bytes);
        proof {
            lemma_record_bounds(whole, reader.place(), None);
            assert(replay_first(user, whole, place, 0, state) == Some(state));
            assert(replay_first(user, whole, from, count, start) == Some(state));
        }
        let record = match reader.read_record() {
            Err(error) => {
                assert(is_replay_of_first(
                    user,
                    whole,
                    from,
                    count,
                    start,
                    *mem,
                    Err::<(u64, usize), Status>(error),
                ));
                assert(is_replay_of_first(
                    user,
                    whole,
                    from,
                    count,
                    start,
                    *mem,
                    Ok::<(u64, usize), Status>((max_sequence, bytes)),
                ));
                if paranoid {
                    return Err(error);
                }
                return Ok((max_sequence, bytes));
            },
            Ok(None) => {
                return Ok((max_sequence, bytes));
            },
            Ok(Some(record)) => record,
        };
        match enter_record(mem, record.as_slice(), max_sequence, bytes) {
            Err(error) => {
                if paranoid {
                    return Err(error);
                }
                return Ok((max_sequence, bytes));
            },
            Ok(now) => {
                max_sequence = now.0;
                bytes = now.1;
                proof {
                    let later = replay_of(*mem, max_sequence, bytes);
                    assert forall|more: nat| #[trigger]
                        replay_first(user, whole, reader.place(), more, later) == replay_first(
                        user,
                        whole,
                        from,
                        (count + 1 + more) as nat,
                        start,
                    ) by {
                        assert(replay_first(user, whole, place, (more + 1) as nat, state)
                            == replay_first(user, whole, from, (count + (more + 1)) as nat, start));
                    }
                    count = count + 1;
                }
            },
        }
    }
}

/// Replays the log of a number.
pub fn recover_log_file<C: Comparator, E: Env>(
    env: &E,
    dbname: &str,
    log_number: u64,
    mem: &mut SharedMemTable<C>,
    paranoid: bool,
) -> (replayed: status::Result<(u64, usize)>)
    requires
        enter::mem_sound(*old(mem)),
        env.wf(),
    ensures
        enter::mem_sound(*final(mem)),
        final(mem).table().order() == old(mem).table().order(),
        ({
            let path = filename::numbered(dbname@, log_number, "log"@);
            let before = replay_of(*old(mem), 0, 0);
            let user = enter::mem_user(*old(mem));
            ||| env.files().contains_key(path) && is_replay(
                user,
                env.files()[path],
                0,
                paranoid,
                before,
                *final(mem),
                replayed,
            )
            ||| !env.reliable() && env.files().contains_key(path) && is_cut_replay(
                user,
                env.files()[path],
                0,
                paranoid,
                before,
                *final(mem),
                replayed,
            )
            ||| (!env.reliable() || !env.files().contains_key(path)) && replayed is Err
                && *final(mem) == *old(mem)
        }),
{
    let path = filename::log_file_name(dbname, log_number);
    match env.new_sequential_file(path.as_str()) {
        Err(error) => Err(error),
        Ok(file) => replay_log_file(file, mem, paranoid),
    }
}

/// How far the recovery of a database has come.
pub struct Recovered {
    /// The entries of the memtable.
    pub contents: Map<Seq<u8>, Seq<u8>>,
    /// How many entries there are.
    pub held: nat,
    /// The greatest sequence number so far.
    pub last_sequence: u64,
}

/// Replays logs one after the other. It fails where a log is missing, or its replay
/// fails: then it is told what is wrong with the log.
pub open spec fn recovered<C: Comparator>(
    user: C,
    files: Map<Seq<char>, Seq<u8>>,
    dbname: Seq<char>,
    logs: Seq<u64>,
    paranoid: bool,
    before: Recovered,
) -> Result<Recovered, Option<Seq<char>>>
    decreases logs.len(),
{
    if logs.len() == 0 {
        Ok(before)
    } else {
        match recovered(user, files, dbname, logs.drop_last(), paranoid, before) {
            Err(fault) => Err(fault),
            Ok(so_far) => {
                let path = filename::numbered(dbname, logs.last(), "log"@);
                let start = Replay {
                    contents: so_far.contents,
                    held: so_far.held,
                    max_sequence: 0,
                    bytes: 0,
                };
                let (after, problem) = replay_log(user, files[path], 0, paranoid, start);
                if !files.contains_key(path) {
                    Err(None)
                } else if problem is None {
                    Ok(
                        Recovered {
                            contents: after.contents,
                            held: after.held,
                            last_sequence: greater(after.max_sequence, so_far.last_sequence),
                        },
                    )
                } else {
                    Err(problem)
                }
            },
        }
    }
}

/// Replays logs one after the other, some of them only up to the record at which the file
/// could not be read any further: of those `cuts` says how many records were.
pub open spec fn recovered_upto<C: Comparator>(
    user: C,
    files: Map<Seq<char>, Seq<u8>>,
    dbname: Seq<char>,
    logs: Seq<u64>,
    cuts: Seq<Option<nat>>,
    before: Recovered,
) -> Option<Recovered>
    decreases logs.len(),
{
    if logs.len() == 0 {
        Some(before)
    } else {
        match recovered_upto(user, files, dbname, logs.drop_last(), cuts.drop_last(), before) {
            None => None,
            Some(so_far) => {
                let path = filename::numbered(dbname, logs.last(), "log"@);
                let start = Replay {
                    contents: so_far.contents,
                    held: so_far.held,
                    max_sequence: 0,
                    bytes: 0,
                };
                let replayed = match cuts.last() {
                    None => Some(replay_log(user, files[path], 0, false, start).0),
                    Some(count) => replay_first(user, files[path], 0, count, start),
                };
                if files.contains_key(path) && replayed is Some {
                    Some(
                        Recovered {
                            contents: replayed->0.contents,
                            held: replayed->0.held,
                            last_sequence: greater(
                                replayed->0.max_sequence,
                                so_far.last_sequence,
                            ),
                        },
                    )
                } else {
                    None
                }
            },
        }
    }
}

/// How a memtable stands for a recovery.
pub open spec fn recovered_as<C: Comparator>(
    mem: SharedMemTable<C>,
    last_sequence: u64,
) -> Recovered {
    Recovered {
        contents: enter::mem_contents(mem),
        held: mem.table().entries().len(),
        last_sequence,
    }
}

/// Whether this is what replaying logs comes to, wherever reading them ended.
pub open spec fn is_recovered_upto<C: Comparator>(
    user: C,
    files: Map<Seq<char>, Seq<u8>>,
    dbname: Seq<char>,
    logs: Seq<u64>,
    before: Recovered,
    after: Recovered,
) -> bool {
    exists|cuts: Seq<Option<nat>>|
        cuts.len() == logs.len() && #[trigger] recovered_upto(
            user,
            files,
            dbname,
            logs,
            cuts,
            before,
        ) == Some(after)
}

/// Whether an error tells what is wrong with a log. Where there is no such log the error is
/// that of the environment.
pub open spec fn says_fault(error: Status, fault: Option<Seq<char>>) -> bool {
    fault matches Some(text) ==> error.says(status::Code::Corruption, text)
}

/// A recovery that fails stays failed.
proof fn lemma_recovery_fails<C: Comparator>(
    user: C,
    files: Map<Seq<char>, Seq<u8>>,
    dbname: Seq<char>,
    logs: Seq<u64>,
    paranoid: bool,
    before: Recovered,
    count: int,
)
    requires
        0 <= count <= logs.len(),
        recovered(user, files, dbname, logs.take(count), paranoid, before) is Err,
    ensures
        recovered(user, files, dbname, logs, paranoid, before) == recovered(
            user,
            files,
            dbname,
            logs.take(count),
            paranoid,
            before,
        ),
    decreases logs.len() - count,
{
    if count < logs.len() {
        assert(logs.take(count + 1).drop_last() =~= logs.take(count));
        lemma_recovery_fails(user, files, dbname, logs, paranoid, before, count + 1);
    } else {
        assert(logs.take(count) =~= logs);
    }
}

/// Replays the logs of some numbers into a memtable, one after the other. Returns the
/// greatest sequence number of all, and of `last_sequence`.
pub fn replay_logs<C: Comparator, E: Env>(
    env: &E,
    dbname: &str,
    logs: &Vec<u64>,
    mem: &mut SharedMemTable<C>,
    last_sequence: u64,
    paranoid: bool,
) -> (replayed: status::Result<u64>)
    requires
        enter::mem_sound(*old(mem)),
        env.wf(),
    ensures
        enter::mem_sound(*final(mem)),
        final(mem).table().order() == old(mem).table().order(),
        env.reliable() || (paranoid && replayed is Ok) ==> match recovered(
            enter::mem_user(*old(mem)),
            env.files(),
            dbname@,
            logs@,
            paranoid,
            recovered_as(*old(mem), last_sequence),
        ) {
            Ok(all) => replayed matches Ok(sequence) && recovered_as(*final(mem), sequence) == all,
            Err(fault) => replayed matches Err(error) && says_fault(error, fault),
        },
        !paranoid ==> (replayed matches Ok(sequence) ==> is_recovered_upto(
            enter::mem_user(*old(mem)),
            env.files(),
            dbname@,
            logs@,
            recovered_as(*old(mem), last_sequence),
            recovered_as(*final(mem), sequence),
        )),
{
    let ghost user = enter::mem_user(*mem);
    let ghost start = recovered_as(*mem, last_sequence);
    let mut greatest: u64 = last_sequence;
    let mut index: usize = 0;
    let ghost mut cuts: Seq<Option<nat>> = Seq::empty();
    assert(logs@.take(0) =~= Seq::<u64>::empty());
    while index < logs.len()
        invariant
            index <= logs@.len(),
            env.wf(),
            enter::mem_sound(*mem),
            mem.table().order() == old(mem).table().order(),
            user == enter::mem_user(*old(mem)),
            start == recovered_as(*old(mem), last_sequence),
            env.reliable() || paranoid ==> recovered(
                user,
                env.files(),
                dbname@,
                logs@.take(index as int),
                paranoid,
                start,
            ) == Ok::<Recovered, Option<Seq<char>>>(recovered_as(*mem, greatest)),
            cuts.len() == index,
            !paranoid ==> recovered_upto(
                user,
                env.files(),
                dbname@,
                logs@.take(index as int),
                cuts,
                start,
            ) == Some(recovered_as(*mem, greatest)),
        decreases logs@.len() - index,
    {
        proof {
            let more = logs@.take(index + 1);
            assert(more.drop_last() =~= logs@.take(index as int));
            assert(more.last() == logs@[index as int]);
        }
        let ghost earlier = *mem;
        match recover_log_file(env, dbname, logs[index], mem, paranoid) {
            Err(error) => {
                proof {
                    if env.reliable() {
                        lemma_recovery_fails(
                            user,
                            env.files(),
                            dbname@,
                            logs@,
                            paranoid,
                            start,
                            index + 1,
                        );
                    }
                }
                return Err(error);
            },
            Ok((sequence, entered)) => {
                proof {
                    let path = filename::numbered(dbname@, logs@[index as int], "log"@);
                    let bytes = env.files()[path];
                    let state = replay_of(earlier, 0, 0);
                    let got = Ok::<(u64, usize), Status>((sequence, entered));
                    let cut: Option<nat> = if is_replay(
                        user,
                        bytes,
                        0,
                        paranoid,
                        state,
                        *mem,
                        got,
                    ) {
                        None
                    } else {
                        Some(
                            choose|count: nat| #[trigger]
                                is_replay_of_first(user, bytes, 0, count, state, *mem, got),
                        )
                    };
                    let before = cuts;
                    cuts = cuts.push(cut);
                    assert(cuts.drop_last() =~= before);
                }
                if sequence > greatest {
                    greatest = sequence;
                }
            },
        }
        index = index + 1;
    }
    assert(logs@.take(index as int) =~= logs@);
    Ok(greatest)
}

// ---------------------------------------------------------------------------
// What a replay brings back
// ---------------------------------------------------------------------------

/// The sequence number at which a group starts, behind the groups before it.
pub open spec fn group_start(start: nat, groups: Seq<Seq<Change>>, index: int) -> nat {
    start + write_queue::all_changes(groups.take(index)).len()
}

/// The records of a log of some groups.
pub open spec fn log_records(start: nat, groups: Seq<Seq<Change>>) -> Seq<Seq<u8>> {
    Seq::new(
        groups.len(),
        |i: int|
            write_batch::batch_bytes(
                group_start(start, groups, i) as u64,
                groups[i].len() as u32,
                write_batch::body_bytes(groups[i]),
            ),
    )
}

/// Whether some updates can all be entered: their keys can be compared, and their
/// lengths written down.
pub open spec fn all_fit<C: Comparator>(user: C, changes: Seq<Change>) -> bool {
    forall|i: int|
        0 <= i < changes.len() ==> {
            &&& user.admits((#[trigger] changes[i]).key())
            &&& changes[i].key().len() + 8 < coding::two_pow_32()
            &&& seen::entry_value(changes[i]).len() < coding::two_pow_32()
        }
}

/// To enter updates and then more is to enter them all.
pub proof fn lemma_applied_join(
    contents: Map<Seq<u8>, Seq<u8>>,
    start: nat,
    first: Seq<Change>,
    second: Seq<Change>,
)
    ensures
        seen::applied(seen::applied(contents, start, first), start + first.len(), second)
            == seen::applied(contents, start, first + second),
    decreases second.len(),
{
    if second.len() > 0 {
        let front = second.drop_last();
        lemma_applied_join(contents, start, first, front);
        assert((first + second).drop_last() =~= first + front);
        assert((first + second).last() == second.last());
    } else {
        assert(first + second =~= first);
    }
}

/// Replaying the record of a group enters all its updates.
pub proof fn lemma_record_replays<C: Comparator>(
    user: C,
    contents: Map<Seq<u8>, Seq<u8>>,
    held: nat,
    start: nat,
    groups: Seq<Seq<Change>>,
    bytes: Seq<u8>,
    index: int,
    state: Replay,
)
    requires
        log::log_image(log_records(start, groups)).is_prefix_of(bytes),
        seen::contents_sound(user, contents),
        seen::all_below(contents, start),
        start + write_queue::all_changes(groups).len() <= crate::format::MAX_SEQUENCE_NUMBER + 1,
        all_fit(user, write_queue::all_changes(groups)),
        forall|i: int| 0 <= i < groups.len() ==> (#[trigger] groups[i]).len() <= u32::MAX,
        held + write_queue::all_changes(groups).len() + 2 < usize::MAX,
        0 <= index < groups.len(),
        state.contents == seen::applied(
            contents,
            start,
            write_queue::all_changes(groups.take(index)),
        ),
        state.held == held + write_queue::all_changes(groups.take(index)).len(),
    ensures
        ({
            let records = log_records(start, groups);
            let cursor = log::log_image(records.take(index)).len() as int;
            let next = log::log_image(records.take(index + 1)).len() as int;
            let (after, problem) = replay_record(user, state, records[index]);
            &&& log::next_record(bytes, cursor, None) == (Logical::Record {
                data: records[index],
                next,
            })
            &&& cursor < next <= bytes.len()
            &&& problem is None
            &&& after.contents == seen::applied(
                contents,
                start,
                write_queue::all_changes(groups.take(index + 1)),
            )
            &&& after.held == held + write_queue::all_changes(groups.take(index + 1)).len()
            &&& after.max_sequence == greater(
                last_of(group_start(start, groups, index) as u64, groups[index].len() as u32),
                state.max_sequence,
            )
            &&& write_queue::all_changes(groups.take(index + 1)).len() == write_queue::all_changes(
                groups.take(index),
            ).len() + groups[index].len()
            &&& write_queue::all_changes(groups.take(index + 1)).len() <= write_queue::all_changes(
                groups,
            ).len()
        }),
{
    let records = log_records(start, groups);
    let cursor = log::log_image(records.take(index)).len() as int;
    let all = write_queue::all_changes(groups);
    let done = write_queue::all_changes(groups.take(index));
    log::law_records_stay(bytes, records, index);
    let group = groups[index];
    let at = group_start(start, groups, index);
    let more = groups.take(index + 1);
    assert(more.drop_last() =~= groups.take(index));
    assert(more.last() == group);
    assert(write_queue::all_changes(more) == done + group);
    lemma_changes_prefix(groups, index);
    lemma_changes_prefix(groups, index + 1);
    assert forall|i: int| 0 <= i < group.len() implies {
        &&& user.admits((#[trigger] group[i]).key())
        &&& group[i].key().len() + 8 < coding::two_pow_32()
        &&& seen::entry_value(group[i]).len() < coding::two_pow_32()
        &&& group[i].is_sized()
    } by {
        assert((done + group)[done.len() + i] == group[i]);
        assert(all[done.len() + i] == group[i]);
    }
    assert(seen::all_admitted(user, done)) by {
        assert forall|i: int| 0 <= i < done.len() implies user.admits(
            (#[trigger] done[i]).key(),
        ) by {
            assert(all[i] == done[i]);
        }
    }
    seen::lemma_applied(user, contents, start, done);
    enter::lemma_newer_enter(user, state.contents, at, group);
    let record = records[index];
    lemma_read_batch(record, at as u64, group.len() as u32, write_batch::body_bytes(group));
    write_batch::law_body_round_trip(group);
    assert(group.take(group.len() as int) =~= group);
    lemma_applied_join(contents, start, done, group);
    let (next_state, problem) = replay_record(user, state, record);
    assert(problem is None);
    lemma_record_bounds(bytes, cursor, None);
}

/// What a replay of the groups from `index` on comes to.
proof fn lemma_replay_from<C: Comparator>(
    user: C,
    contents: Map<Seq<u8>, Seq<u8>>,
    held: nat,
    start: nat,
    groups: Seq<Seq<Change>>,
    paranoid: bool,
    bytes: Seq<u8>,
    index: int,
    state: Replay,
)
    requires
        log::is_log_of(bytes, log_records(start, groups), paranoid),
        seen::contents_sound(user, contents),
        seen::all_below(contents, start),
        0 < start,
        start + write_queue::all_changes(groups).len() <= crate::format::MAX_SEQUENCE_NUMBER + 1,
        all_fit(user, write_queue::all_changes(groups)),
        forall|i: int| 0 <= i < groups.len() ==> (#[trigger] groups[i]).len() <= u32::MAX,
        held + write_queue::all_changes(groups).len() + 2 < usize::MAX,
        0 <= index <= groups.len(),
        state.contents == seen::applied(
            contents,
            start,
            write_queue::all_changes(groups.take(index)),
        ),
        state.held == held + write_queue::all_changes(groups.take(index)).len(),
        state.max_sequence == if index == 0 {
            0
        } else {
            group_start(start, groups, index) - 1
        },
    ensures
        ({
            let (after, problem) = replay_log(
                user,
                bytes,
                log::log_image(log_records(start, groups).take(index)).len() as int,
                paranoid,
                state,
            );
            &&& problem is None
            &&& after.contents == seen::applied(
                contents,
                start,
                write_queue::all_changes(groups),
            )
            &&& after.held == held + write_queue::all_changes(groups).len()
            &&& after.max_sequence == if groups.len() > 0 {
                start + write_queue::all_changes(groups).len() - 1
            } else {
                0
            }
        }),
    decreases groups.len() - index,
{
    let records = log_records(start, groups);
    let cursor = log::log_image(records.take(index)).len() as int;
    if index == groups.len() {
        assert(records.take(index) =~= records);
        assert(groups.take(index) =~= groups);
    } else {
        lemma_record_replays(user, contents, held, start, groups, bytes, index, state);
        let (next_state, problem) = replay_record(user, state, records[index]);
        lemma_replay_from(
            user,
            contents,
            held,
            start,
            groups,
            paranoid,
            bytes,
            index + 1,
            next_state,
        );
    }
}

/// The updates of the first groups are the first updates.
proof fn lemma_changes_prefix(groups: Seq<Seq<Change>>, count: int)
    requires
        0 <= count <= groups.len(),
    ensures
        write_queue::all_changes(groups.take(count)).is_prefix_of(write_queue::all_changes(groups)),
    decreases groups.len(),
{
    if count == groups.len() {
        assert(groups.take(count) =~= groups);
    } else {
        let front = groups.drop_last();
        assert(front.take(count) =~= groups.take(count));
        lemma_changes_prefix(front, count);
        let some = write_queue::all_changes(groups.take(count));
        let all = write_queue::all_changes(groups);
        let most = write_queue::all_changes(front);
        assert(some =~= all.take(some.len() as int)) by {
            assert(some =~= most.take(some.len() as int));
        }
    }
}

/// A replay of the log of some groups enters all their updates, in the order and under
/// the sequence numbers under which they were written, also where a record behind them was
/// not written to its end.
pub proof fn law_log_replays<C: Comparator>(
    user: C,
    before: Replay,
    start: nat,
    groups: Seq<Seq<Change>>,
    bytes: Seq<u8>,
    paranoid: bool,
)
    requires
        log::is_log_of(bytes, log_records(start, groups), paranoid),
        seen::contents_sound(user, before.contents),
        seen::all_below(before.contents, start),
        0 < start,
        start + write_queue::all_changes(groups).len() <= crate::format::MAX_SEQUENCE_NUMBER + 1,
        all_fit(user, write_queue::all_changes(groups)),
        forall|i: int| 0 <= i < groups.len() ==> (#[trigger] groups[i]).len() <= u32::MAX,
        before.held + write_queue::all_changes(groups).len() + 2 < usize::MAX,
        before.max_sequence == 0,
    ensures
        ({
            let (after, problem) = replay_log(
                user,
                bytes,
                0,
                paranoid,
                before,
            );
            &&& problem is None
            &&& after.contents == seen::applied(
                before.contents,
                start,
                write_queue::all_changes(groups),
            )
            &&& after.held == before.held + write_queue::all_changes(groups).len()
            &&& after.max_sequence == if groups.len() > 0 {
                start + write_queue::all_changes(groups).len() - 1
            } else {
                0
            }
        }),
{
    let records = log_records(start, groups);
    assert(groups.take(0) =~= Seq::<Seq<Change>>::empty());
    assert(write_queue::all_changes(groups.take(0)) =~= Seq::<Change>::empty());
    assert(records.take(0) =~= Seq::<Seq<u8>>::empty());
    assert(log::log_image(records.take(0)) =~= Seq::<u8>::empty());
    lemma_replay_from(
        user,
        before.contents,
        before.held,
        start,
        groups,
        paranoid,
        bytes,
        0,
        before,
    );
}

} // verus!
