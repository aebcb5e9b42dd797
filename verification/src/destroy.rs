//! Deleting a database.
//!
//! The lock of the database is taken, the files that have the names of files of a
//! database are deleted, and then the directory, if nothing else is left in it.

use vstd::prelude::*;

use crate::env;
use crate::env::Env;
use crate::filename;
use crate::status;
use crate::text;

verus! {

/// Whether a path is, or lies below, an entry of the directory that has the name of a
/// file of a database.
pub open spec fn belongs(dbname: Seq<char>, path: Seq<char>) -> bool {
    match env::child_towards(path, dbname) {
        Some(entry) => filename::parsed_name(filename::base_name(entry)) is Some,
        None => false,
    }
}

/// The files that do not belong to the database.
pub open spec fn files_left(files: Map<Seq<char>, Seq<u8>>, dbname: Seq<char>) -> Map<
    Seq<char>,
    Seq<u8>,
> {
    Map::new(
        |path: Seq<char>| files.contains_key(path) && !belongs(dbname, path),
        |path: Seq<char>| files[path],
    )
}

/// Whether the directory is laid out as a directory can be: no file has its place, no
/// name is empty, and nothing lies below a file or below the lock.
pub open spec fn is_tree(files: Map<Seq<char>, Seq<u8>>, dbname: Seq<char>) -> bool {
    &&& forall|path: Seq<char>| #[trigger]
        files.contains_key(path) && env::lies_under(path, dbname) ==> env::child_towards(
            path,
            dbname,
        ) is Some
    &&& forall|path: Seq<char>, entry: Seq<char>|
        #![trigger files.contains_key(path), files.contains_key(entry)]
        files.contains_key(path) && (files.contains_key(entry) || entry == filename::within(
            dbname,
            "LOCK"@,
        )) && env::child_towards(path, dbname) == Some(entry) ==> path == entry
}

proof fn lemma_part_end(path: Seq<char>, from: int)
    requires
        0 <= from <= path.len(),
    ensures
        ({
            let end = env::part_end(path, from);
            &&& from <= end <= path.len()
            &&& end == path.len() || path[end] == '/'
            &&& forall|i: int| from <= i < end ==> path[i] != '/'
        }),
    decreases path.len() - from,
{
    if from < path.len() && path[from] != '/' {
        lemma_part_end(path, from + 1);
    }
}

proof fn lemma_part_end_at(path: Seq<char>, from: int, end: int)
    requires
        0 <= from <= end <= path.len(),
        end == path.len() || path[end] == '/',
        forall|i: int| from <= i < end ==> path[i] != '/',
    ensures
        env::part_end(path, from) == end,
    decreases end - from,
{
    if from < end {
        lemma_part_end_at(path, from + 1, end);
    }
}

/// What lies below an entry, lies below the directory through that entry.
proof fn lemma_below_entry(dbname: Seq<char>, entry: Seq<char>, path: Seq<char>)
    requires
        env::child_towards(entry, dbname) == Some(entry),
    ensures
        env::lies_under(path, entry) == (env::child_towards(path, dbname) == Some(entry)),
        env::lies_under(path, entry) ==> env::lies_under(path, dbname),
{
    reveal_strlit("/");
    let start = dbname.len() as int + 1;
    let top = dbname + "/"@;
    lemma_part_end(entry, start);
    assert(entry.take(entry.len() as int) =~= entry);
    assert(env::part_end(entry, start) == entry.len());
    if env::lies_under(path, entry) && path != entry {
        let below = entry + "/"@;
        assert(path.take(below.len() as int) =~= below);
        assert forall|i: int| 0 <= i < below.len() implies path[i] == below[i] by {
            assert(path.take(below.len() as int)[i] == path[i]);
        }
        assert forall|i: int| 0 <= i < top.len() implies path[i] == top[i] by {
            assert(entry.take(top.len() as int)[i] == entry[i]);
        }
        assert(path.take(top.len() as int) =~= top);
        lemma_part_end_at(path, start, entry.len() as int);
        assert(path.take(entry.len() as int) =~= entry);
    }
    if env::child_towards(path, dbname) == Some(entry) {
        let end = env::part_end(path, start);
        lemma_part_end(path, start);
        if end == path.len() {
            assert(path.take(end) =~= path);
        } else {
            let below = entry + "/"@;
            assert(path.take(below.len() as int) =~= below);
        }
    }
}

/// The lock is an entry of the directory, and belongs to the database.
proof fn lemma_lock_belongs(dbname: Seq<char>)
    ensures
        ({
            let lock = filename::within(dbname, "LOCK"@);
            &&& env::child_towards(lock, dbname) == Some(lock)
            &&& belongs(dbname, lock)
            &&& env::lies_under(lock, dbname)
        }),
{
    reveal_strlit("/");
    reveal_strlit("LOCK");
    let lock = filename::within(dbname, "LOCK"@);
    let top = dbname + "/"@;
    assert(lock.take(top.len() as int) =~= top);
    lemma_part_end_at(lock, dbname.len() as int + 1, lock.len() as int);
    assert(lock.take(lock.len() as int) =~= lock);
    filename::law_plain_names(dbname);
}

/// Whether no file is, or lies below, an entry.
spec fn is_gone(files: Map<Seq<char>, Seq<u8>>, dbname: Seq<char>, entry: Seq<char>) -> bool {
    forall|path: Seq<char>|
        #[trigger] files.contains_key(path) ==> env::child_towards(path, dbname) != Some(entry)
}

/// Deletes an entry of the directory: a file, or a directory with all in it.
fn delete_entry<E: Env>(env: &mut E, dbname: &str, entry: &str) -> (outcome: status::Result<()>)
    requires
        old(env).wf(),
        env::child_towards(entry@, dbname@) == Some(entry@),
    ensures
        final(env).wf(),
        final(env).locks() == old(env).locks(),
        final(env).reliable() == old(env).reliable(),
        env::agree_outside(old(env).files(), final(env).files(), entry@),
        old(env).reliable() ==> {
            &&& outcome is Ok
            &&& forall|path: Seq<char>| #[trigger]
                final(env).files().contains_key(path) ==> old(env).files().contains_key(path)
            &&& !final(env).files().contains_key(entry@)
            &&& !old(env).files().contains_key(entry@) ==> is_gone(
                final(env).files(),
                dbname@,
                entry@,
            )
        },
{
    match env.delete_file(entry) {
        Ok(_) => Ok(()),
        Err(_) => {
            let outcome = env.delete_dir(entry);
            proof {
                assert forall|path: Seq<char>|
                    env.reliable() && #[trigger] env.files().contains_key(
                        path,
                    ) implies env::child_towards(path, dbname@) != Some(entry@) by {
                    lemma_below_entry(dbname@, entry@, path);
                }
            }
            outcome
        },
    }
}

/// Deletes a database: the files in its directory that have the names of files of a
/// database, and the directory if nothing else is left in it. It is an error if the
/// database is locked. A missing directory is no error.
#[verifier::rlimit(40)]
pub fn destroy_db<E: Env>(dbname: &str, env: &mut E) -> (outcome: status::Result<()>)
    requires
        old(env).wf(),
    ensures
        final(env).wf(),
        final(env).locks() == old(env).locks(),
        final(env).reliable() == old(env).reliable(),
        env::agree_outside(old(env).files(), final(env).files(), dbname@),
        old(env).reliable() && is_tree(old(env).files(), dbname@) ==> match outcome {
            Ok(_) => final(env).files() == files_left(old(env).files(), dbname@),
            Err(_) => final(env).files() == old(env).files(),
        },
        old(env).reliable() ==> {
            let locked = old(env).locks().contains(filename::within(dbname@, "LOCK"@));
            &&& !locked ==> outcome is Ok
            &&& locked && files_left(old(env).files(), dbname@) != old(env).files()
                ==> outcome is Err
        },
{
    let ghost before = env.files();
    let ghost lock_place = filename::within(dbname@, "LOCK"@);
    let entries = match env.list_dir(dbname) {
        Err(_) => {
            return env.delete_dir(dbname);
        },
        Ok(entries) => entries,
    };
    if entries.len() == 0 {
        proof {
            assert forall|path: Seq<char>| #[trigger] before.contains_key(path) implies !belongs(
                dbname@,
                path,
            ) by {
                match env::child_towards(path, dbname@) {
                    Some(entry) => {
                        assert(env::is_child(before, dbname@, entry));
                        assert(env::texts(entries@).contains(entry));
                    },
                    None => {},
                }
            }
            assert(files_left(before, dbname@) =~= before);
        }
        return Ok(());
    }
    let lock_path = filename::lock_file_name(dbname);
    proof {
        lemma_lock_belongs(dbname@);
    }
    let lock = match env.lock_file(lock_path.as_str()) {
        Err(error) => {
            return Err(error);
        },
        Ok(lock) => lock,
    };
    let mut result: status::Result<()> = Ok(());
    let mut index: usize = 0;
    while index < entries.len()
        invariant
            index <= entries@.len(),
            before == old(env).files(),
            lock_place == filename::within(dbname@, "LOCK"@),
            lock_path@ == lock_place,
            env::child_towards(lock_place, dbname@) == Some(lock_place),
            env.wf(),
            env.locks() == old(env).locks().insert(lock_place),
            env.reliable() == old(env).reliable(),
            forall|i: int|
                0 <= i < entries@.len() ==> env::child_towards(#[trigger] entries@[i]@, dbname@)
                    == Some(entries@[i]@),
            env::agree_outside(before, env.files(), dbname@),
            forall|path: Seq<char>|
                !#[trigger] belongs(dbname@, path) ==> before.contains_key(path)
                    == env.files().contains_key(path) && (before.contains_key(path) ==> before[path]
                        == env.files()[path]),
            env.reliable() ==> {
                &&& result is Ok
                &&& env.files().contains_key(lock_place)
                &&& forall|path: Seq<char>| #[trigger]
                    env.files().contains_key(path) ==> before.contains_key(path) || path
                        == lock_place
                &&& is_tree(before, dbname@) ==> forall|i: int|
                    #![trigger entries@[i]]
                    0 <= i < index && entries@[i]@ != lock_place && filename::parsed_name(
                        filename::base_name(entries@[i]@),
                    ) is Some ==> is_gone(env.files(), dbname@, entries@[i]@)
            },
        decreases entries@.len() - index,
    {
        let entry = entries[index].as_str();
        let ghost now = env.files();
        if filename::parse_file_name(entry).is_some() && !text::same_text(
            entry,
            lock_path.as_str(),
        ) {
            assert(entries@[index as int]@ == entry@);
            let deleted = delete_entry(env, dbname, entry);
            proof {
                assert forall|path: Seq<char>|
                    !#[trigger] belongs(dbname@, path) implies before.contains_key(path)
                    == env.files().contains_key(path) && (before.contains_key(path) ==> before[path]
                        == env.files()[path]) by {
                    lemma_below_entry(dbname@, entry@, path);
                    assert(!env::lies_under(path, entry@));
                }
                assert forall|path: Seq<char>|
                    !#[trigger] env::lies_under(path, dbname@) implies before.contains_key(path)
                    == env.files().contains_key(path) && (before.contains_key(path) ==> before[path]
                        == env.files()[path]) by {
                    lemma_below_entry(dbname@, entry@, path);
                    assert(!env::lies_under(path, entry@));
                }
                lemma_below_entry(dbname@, entry@, lock_place);
                assert(!env::lies_under(lock_place, entry@));
                if env.reliable() && is_tree(before, dbname@) && now.contains_key(entry@) {
                    assert(is_gone(env.files(), dbname@, entry@)) by {
                        assert(before.contains_key(entry@));
                        assert forall|path: Seq<char>| #[trigger]
                            env.files().contains_key(path) implies env::child_towards(
                            path,
                            dbname@,
                        ) != Some(entry@) by {
                            assert(now.contains_key(path));
                            assert(before.contains_key(path) || path == lock_place);
                        }
                    }
                }
            }
            match deleted {
                Ok(_) => {},
                Err(error) => {
                    if result.is_ok() {
                        result = Err(error);
                    }
                },
            }
        }
        index = index + 1;
    }
    env.unlock_file(lock);
    let ghost unlocked = env.files();
    let _ = env.delete_file(lock_path.as_str());
    let ghost after = env.files();
    proof {
        assert(env.locks() =~= old(env).locks());
        if env.reliable() && is_tree(before, dbname@) {
            assert forall|path: Seq<char>| #[trigger] after.contains_key(path) implies
                before.contains_key(path) && !belongs(dbname@, path) by {
                assert(unlocked.contains_key(path));
                if belongs(dbname@, path) {
                    let entry = env::child_towards(path, dbname@)->0;
                    if path != lock_place {
                        assert(before.contains_key(path));
                        if entry != lock_place {
                            assert(env::is_child(before, dbname@, entry));
                            let all = env::texts(entries@);
                            assert(all.contains(entry));
                            let i = choose|i: int| 0 <= i < all.len() && all[i] == entry;
                            assert(entries@[i]@ == entry);
                            assert(is_gone(unlocked, dbname@, entries@[i]@));
                        }
                    }
                }
            }
            assert forall|path: Seq<char>|
                before.contains_key(path) && !#[trigger] belongs(
                    dbname@,
                    path,
                ) implies after.contains_key(path) by {
                assert(path != lock_place);
            }
            assert(after =~= files_left(before, dbname@));
        }
    }
    match env.list_dir(dbname) {
        Err(_) => {},
        Ok(rest) => {
            if rest.len() == 0 {
                let _ = env.delete_dir(dbname);
                proof {
                    if env.reliable() && is_tree(before, dbname@) {
                        assert forall|path: Seq<char>| #[trigger]
                            after.contains_key(path) implies !env::lies_under(path, dbname@) by {
                            assert(before.contains_key(path));
                            if env::lies_under(path, dbname@) {
                                let entry = env::child_towards(path, dbname@)->0;
                                assert(env::is_child(after, dbname@, entry));
                                assert(env::texts(rest@).contains(entry));
                            }
                        }
                        assert(env.files() =~= after);
                    }
                }
            }
        },
    }
    result
}

/// Destroying a database once more changes nothing.
pub proof fn law_destroy_twice(files: Map<Seq<char>, Seq<u8>>, dbname: Seq<char>)
    ensures
        files_left(files_left(files, dbname), dbname) == files_left(files, dbname),
        is_tree(files, dbname) ==> is_tree(files_left(files, dbname), dbname),
{
    let left = files_left(files, dbname);
    assert(files_left(left, dbname) =~= left);
    if is_tree(files, dbname) {
        assert forall|path: Seq<char>, entry: Seq<char>|
            #![trigger left.contains_key(path), left.contains_key(entry)]
            left.contains_key(path) && (left.contains_key(entry) || entry == filename::within(
                dbname,
                "LOCK"@,
            )) && env::child_towards(path, dbname) == Some(entry) implies path == entry by {
            assert(files.contains_key(path));
            assert(files.contains_key(entry) || !files.contains_key(entry));
        }
    }
}

/// Destroying a database takes each file in its directory that has the name of a file of a
/// database, and leaves all others as they are: files of other names, and files elsewhere.
pub proof fn law_destroy_takes_files(
    files: Map<Seq<char>, Seq<u8>>,
    dbname: Seq<char>,
    name: Seq<char>,
)
    requires
        name.len() > 0,
        filename::is_plain(name),
    ensures
        ({
            let left = files_left(files, dbname);
            let path = filename::within(dbname, name);
            &&& filename::parsed_name(name) is Some ==> !left.contains_key(path)
            &&& filename::parsed_name(name) is None && files.contains_key(path)
                ==> left.contains_key(path) && left[path] == files[path]
            &&& forall|other: Seq<char>|
                !(dbname + "/"@).is_prefix_of(other) ==> (#[trigger] left.contains_key(other)
                    <==> files.contains_key(other)) && (files.contains_key(other) ==> left[other]
                    == files[other])
            &&& forall|other: Seq<char>| #[trigger]
                left.contains_key(other) ==> files.contains_key(other)
        }),
{
    let left = files_left(files, dbname);
    let path = filename::within(dbname, name);
    env::laws::law_child_leads_to_path(dbname, name, Seq::empty());
    filename::lemma_base_name(dbname, name);
    assert(path == dbname + "/"@ + name);
    assert forall|other: Seq<char>| !(dbname + "/"@).is_prefix_of(other) implies (
    #[trigger] left.contains_key(other) <==> files.contains_key(other)) && (files.contains_key(
        other,
    ) ==> left[other] == files[other]) by {
        env::laws::law_child_is_a_name(dbname, other);
    }
}

/// A directory that holds files only, none of them under an empty name, and that has no file in
/// its own place is laid out as a directory can be.
pub proof fn law_flat_directory_is_tree(files: Map<Seq<char>, Seq<u8>>, dbname: Seq<char>)
    requires
        forall|path: Seq<char>| #[trigger]
            files.contains_key(path) && env::lies_under(path, dbname) ==> {
                let name = path.skip(dbname.len() as int + 1);
                &&& path == filename::within(dbname, name)
                &&& name.len() > 0
                &&& filename::is_plain(name)
            },
    ensures
        is_tree(files, dbname),
{
    assert forall|path: Seq<char>| #[trigger]
        files.contains_key(path) && env::lies_under(path, dbname) implies env::child_towards(
        path,
        dbname,
    ) == Some(path) by {
        let name = path.skip(dbname.len() as int + 1);
        env::laws::law_child_leads_to_path(dbname, name, Seq::empty());
    }
    assert forall|path: Seq<char>, entry: Seq<char>|
        #![trigger files.contains_key(path), files.contains_key(entry)]
        files.contains_key(path) && (files.contains_key(entry) || entry == filename::within(
            dbname,
            "LOCK"@,
        )) && env::child_towards(path, dbname) == Some(entry) implies path == entry by {
        env::laws::law_child_is_a_name(dbname, path);
        env::laws::law_lies_under(path, dbname);
        assert(env::lies_under(path, dbname));
    }
}

} // verus!
