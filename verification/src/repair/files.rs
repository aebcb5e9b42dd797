//! Finding the files of a damaged database, and setting files aside.

use vstd::prelude::*;

use crate::db_impl::recovery;
use crate::env;
use crate::env::Env;
use crate::filename;
use crate::filename::FileType;
use crate::status;
use crate::status::Status;
use crate::text;

verus! {

/// The files of a database that a repair looks at.
#[derive(Debug)]
pub struct FoundFiles {
    /// The names of the manifests.
    pub manifests: Vec<String>,
    pub logs: Vec<u64>,
    pub tables: Vec<u64>,
    /// A number that is behind those of all logs, tables and temporary files.
    pub next_file_number: u64,
}

/// The names of the manifests among some paths.
pub open spec fn manifest_names(paths: Seq<Seq<char>>) -> Seq<Seq<char>>
    decreases paths.len(),
{
    if paths.len() == 0 {
        Seq::empty()
    } else {
        let front = manifest_names(paths.drop_last());
        let name = filename::base_name(paths.last());
        match filename::parsed_name(name) {
            Some((_, FileType::DescriptorFile)) => front.push(name),
            _ => front,
        }
    }
}

/// The number behind another, as far as there is one.
pub open spec fn number_behind(number: u64) -> u64 {
    if number < u64::MAX {
        (number + 1) as u64
    } else {
        number
    }
}

/// The number behind those of all files but manifests.
pub open spec fn next_number(paths: Seq<Seq<char>>) -> u64
    decreases paths.len(),
{
    if paths.len() == 0 {
        1
    } else {
        let front = next_number(paths.drop_last());
        match filename::parsed_name(filename::base_name(paths.last())) {
            Some((number, kind)) => if kind != FileType::DescriptorFile && number_behind(number)
                > front {
                number_behind(number)
            } else {
                front
            },
            None => front,
        }
    }
}

/// No log, table or temporary file has the next number or one behind it.
pub proof fn law_next_number_is_new(paths: Seq<Seq<char>>, index: int)
    requires
        0 <= index < paths.len(),
    ensures
        filename::parsed_name(filename::base_name(paths[index])) matches Some((number, kind))
            ==> kind != FileType::DescriptorFile && number < u64::MAX ==> number < next_number(
            paths,
        ),
    decreases paths.len(),
{
    if index < paths.len() - 1 {
        law_next_number_is_new(paths.drop_last(), index);
    }
}

/// Sorts the entries of a directory by what they are.
pub fn classify_files(paths: &Vec<String>) -> (found: FoundFiles)
    ensures
        env::texts(found.manifests@) == manifest_names(env::texts(paths@)),
        found.logs@ == recovery::numbers_of(env::texts(paths@), FileType::LogFile),
        found.tables@ == recovery::numbers_of(env::texts(paths@), FileType::TableFile),
        found.next_file_number == next_number(env::texts(paths@)),
{
    let ghost all = env::texts(paths@);
    let mut manifests: Vec<String> = Vec::new();
    let mut next_file_number: u64 = 1;
    let mut index: usize = 0;
    assert(all.take(0) =~= Seq::<Seq<char>>::empty());
    assert(env::texts(manifests@) =~= Seq::<Seq<char>>::empty());
    while index < paths.len()
        invariant
            index <= paths@.len(),
            all == env::texts(paths@),
            env::texts(manifests@) == manifest_names(all.take(index as int)),
            next_file_number == next_number(all.take(index as int)),
        decreases paths@.len() - index,
    {
        proof {
            let more = all.take(index + 1);
            assert(more.drop_last() =~= all.take(index as int));
            assert(more.last() == paths@[index as int]@);
        }
        let path = paths[index].as_str();
        match filename::parse_file_name(path) {
            None => {},
            Some((number, kind)) => {
                if kind == FileType::DescriptorFile {
                    let ghost before = manifests@;
                    manifests.push(filename::file_base_name(path).to_owned());
                    assert(env::texts(manifests@) =~= env::texts(before).push(
                        filename::base_name(path@),
                    ));
                } else {
                    let behind: u64 = if number < u64::MAX {
                        number + 1
                    } else {
                        number
                    };
                    if behind > next_file_number {
                        next_file_number = behind;
                    }
                }
            },
        }
        index = index + 1;
    }
    assert(all.take(index as int) =~= all);
    FoundFiles {
        manifests,
        logs: recovery::file_numbers(paths, FileType::LogFile),
        tables: recovery::file_numbers(paths, FileType::TableFile),
        next_file_number,
    }
}

/// Whether these can be the entries of a directory.
pub open spec fn is_listing(
    files: Map<Seq<char>, Seq<u8>>,
    dir: Seq<char>,
    paths: Seq<Seq<char>>,
) -> bool {
    &&& forall|child: Seq<char>|
        env::is_child(files, dir, child) ==> #[trigger] paths.contains(child)
    &&& forall|i: int|
        0 <= i < paths.len() ==> env::child_towards(#[trigger] paths[i], dir) == Some(paths[i])
}

/// What is reported of a directory without files.
pub open spec fn no_files_text(dbname: Seq<char>) -> Seq<char> {
    "repair found no files in "@ + dbname
}

/// Whether these files are found among the entries of a directory.
pub open spec fn found_among(paths: Seq<Seq<char>>, found: FoundFiles) -> bool {
    &&& paths.len() > 0
    &&& env::texts(found.manifests@) == manifest_names(paths)
    &&& found.logs@ == recovery::numbers_of(paths, FileType::LogFile)
    &&& found.tables@ == recovery::numbers_of(paths, FileType::TableFile)
    &&& found.next_file_number == next_number(paths)
}

/// Lists the directory of a database. It is an error if there is nothing in it.
pub fn find_files<E: Env>(env: &E, dbname: &str) -> (found: status::Result<FoundFiles>)
    requires
        env.wf(),
    ensures
        found matches Ok(files) ==> exists|paths: Seq<Seq<char>>| #[trigger]
            is_listing(env.files(), dbname@, paths) && found_among(paths, files),
        env.reliable() && found is Err ==> {
            &&& found matches Err(error)
            &&& error.says(status::Code::IoError, no_files_text(dbname@))
            &&& forall|child: Seq<char>| !#[trigger] env::is_child(env.files(), dbname@, child)
        },
{
    let entries = match env.list_dir(dbname) {
        Err(error) => {
            return Err(error);
        },
        Ok(entries) => entries,
    };
    let ghost paths = env::texts(entries@);
    if entries.len() == 0 {
        proof {
            assert forall|child: Seq<char>|
                !#[trigger] env::is_child(env.files(), dbname@, child) by {
                if env::is_child(env.files(), dbname@, child) {
                    assert(paths.contains(child));
                }
            }
        }
        let message = text::joined("repair found no files in ", dbname);
        return Err(Status::io_error(message.as_str()));
    }
    proof {
        assert forall|i: int| 0 <= i < paths.len() implies env::child_towards(
            #[trigger] paths[i],
            dbname@,
        ) == Some(paths[i]) by {
            assert(paths[i] == entries@[i]@);
        }
        assert(is_listing(env.files(), dbname@, paths));
    }
    Ok(classify_files(&entries))
}

/// Where a file is set aside.
pub open spec fn lost_path(dbname: Seq<char>, path: Seq<char>) -> Seq<char> {
    dbname + "/lost"@ + "/"@ + filename::base_name(path)
}

/// The files once one is set aside, where it is there.
pub open spec fn set_aside(
    files: Map<Seq<char>, Seq<u8>>,
    dbname: Seq<char>,
    path: Seq<char>,
) -> Map<Seq<char>, Seq<u8>> {
    if files.contains_key(path) {
        files.remove(path).insert(lost_path(dbname, path), files[path])
    } else {
        files
    }
}

/// Moves a file of a database to its directory `lost`.
pub fn archive_file<E: Env>(env: &mut E, dbname: &str, path: &str) -> (outcome: status::Result<()>)
    requires
        old(env).wf(),
    ensures
        final(env).wf(),
        final(env).locks() == old(env).locks(),
        final(env).reliable() == old(env).reliable(),
        outcome is Ok ==> old(env).files().contains_key(path@) && final(env).files() == set_aside(
            old(env).files(),
            dbname@,
            path@,
        ),
        outcome is Err ==> final(env).files() == old(env).files(),
        old(env).reliable() ==> outcome is Ok == old(env).files().contains_key(path@),
{
    let lost_dir = text::joined(dbname, "/lost");
    let _ = env.create_dir(lost_dir.as_str());
    let mut target = text::joined(lost_dir.as_str(), "/");
    target.append(filename::file_base_name(path));
    assert(target@ =~= lost_path(dbname@, path@));
    env.rename_file(path, target.as_str())
}

/// The path of a file by its name in the directory.
fn path_within(dbname: &str, name: &str) -> (path: String)
    ensures
        path@ == filename::within(dbname@, name@),
{
    let mut path = text::joined(dbname, "/");
    path.append(name);
    path
}

/// The files once some of those of the given names are set aside.
pub open spec fn some_set_aside(
    files: Map<Seq<char>, Seq<u8>>,
    dbname: Seq<char>,
    names: Seq<Seq<char>>,
    moved: Seq<bool>,
) -> Map<Seq<char>, Seq<u8>>
    decreases names.len(),
{
    if names.len() == 0 {
        files
    } else {
        let front = some_set_aside(files, dbname, names.drop_last(), moved.drop_last());
        if moved.last() {
            set_aside(front, dbname, filename::within(dbname, names.last()))
        } else {
            front
        }
    }
}

/// Whether files were set aside by their names: all of them, where moves do not fail.
pub open spec fn are_set_aside(
    before: Map<Seq<char>, Seq<u8>>,
    dbname: Seq<char>,
    names: Seq<Seq<char>>,
    sure: bool,
    after: Map<Seq<char>, Seq<u8>>,
) -> bool {
    exists|moved: Seq<bool>| #[trigger]
        some_set_aside(before, dbname, names, moved) == after && moved.len() == names.len() && (sure
            ==> forall|i: int| 0 <= i < moved.len() ==> #[trigger] moved[i])
}

/// Sets aside files by their names. What cannot be moved stays.
pub fn archive_files<E: Env>(env: &mut E, dbname: &str, names: &Vec<String>)
    requires
        old(env).wf(),
    ensures
        final(env).wf(),
        final(env).locks() == old(env).locks(),
        final(env).reliable() == old(env).reliable(),
        are_set_aside(
            old(env).files(),
            dbname@,
            env::texts(names@),
            old(env).reliable(),
            final(env).files(),
        ),
{
    let ghost all = env::texts(names@);
    let ghost mut moved: Seq<bool> = Seq::empty();
    let mut index: usize = 0;
    assert(all.take(0) =~= Seq::<Seq<char>>::empty());
    while index < names.len()
        invariant
            index <= names@.len(),
            all == env::texts(names@),
            env.wf(),
            env.locks() == old(env).locks(),
            env.reliable() == old(env).reliable(),
            moved.len() == index,
            env.reliable() ==> forall|i: int| 0 <= i < moved.len() ==> #[trigger] moved[i],
            env.files() == some_set_aside(
                old(env).files(),
                dbname@,
                all.take(index as int),
                moved,
            ),
        decreases names@.len() - index,
    {
        proof {
            let more = all.take(index + 1);
            assert(more.drop_last() =~= all.take(index as int));
            assert(more.last() == names@[index as int]@);
        }
        let path = path_within(dbname, names[index].as_str());
        let ghost before = env.files();
        let outcome = archive_file(env, dbname, path.as_str());
        proof {
            let first = moved;
            moved = moved.push(outcome is Ok || !before.contains_key(path@));
            assert(moved.drop_last() =~= first);
        }
        index = index + 1;
    }
    assert(all.take(index as int) =~= all);
}

} // verus!
