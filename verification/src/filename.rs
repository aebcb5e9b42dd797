//! The names of the files of a database.
//!
//! A database keeps its files in one directory: numbered logs, tables, manifests and
//! temporary files, and `CURRENT`, `LOCK` and `LOG`.

use vstd::prelude::*;

use crate::env::Env;
use crate::env;
use crate::env::WritableFile;
use crate::status;
use crate::text;

verus! {

/// What a file of a database is.
#[derive(Debug, Copy, Clone, PartialEq, Eq, Structural)]
pub enum FileType {
    /// `<number>.log`
    LogFile,
    /// `LOCK`
    DbLockFile,
    /// `<number>.ldb`, or `<number>.sst` as older tables are named
    TableFile,
    /// `MANIFEST-<number>`
    DescriptorFile,
    /// `CURRENT`
    CurrentFile,
    /// `<number>.dbtmp`
    TempFile,
    /// `LOG`, and `LOG.old` once it is replaced
    InfoLogFile,
}

/// The path of a numbered file.
pub open spec fn numbered(dbname: Seq<char>, number: u64, suffix: Seq<char>) -> Seq<char> {
    dbname + "/"@ + text::decimal_6(number as nat) + "."@ + suffix
}

/// The path of a file by its name in the directory.
pub open spec fn within(dbname: Seq<char>, name: Seq<char>) -> Seq<char> {
    dbname + "/"@ + name
}

/// The name of a manifest in the directory.
pub open spec fn manifest_name(number: u64) -> Seq<char> {
    "MANIFEST-"@ + text::decimal_6(number as nat)
}

fn make_file_name(dbname: &str, number: u64, suffix: &str) -> (name: String)
    ensures
        name@ == numbered(dbname@, number, suffix@),
{
    let mut name = text::joined(dbname, "/");
    text::push_decimal_6(&mut name, number);
    name.append(".");
    name.append(suffix);
    name
}

pub fn log_file_name(dbname: &str, number: u64) -> (name: String)
    ensures
        name@ == numbered(dbname@, number, "log"@),
{
    make_file_name(dbname, number, "log")
}

pub fn table_file_name(dbname: &str, number: u64) -> (name: String)
    ensures
        name@ == numbered(dbname@, number, "ldb"@),
{
    make_file_name(dbname, number, "ldb")
}

pub fn sst_table_file_name(dbname: &str, number: u64) -> (name: String)
    ensures
        name@ == numbered(dbname@, number, "sst"@),
{
    make_file_name(dbname, number, "sst")
}

pub fn descriptor_file_name(dbname: &str, number: u64) -> (name: String)
    ensures
        name@ == within(dbname@, manifest_name(number)),
{
    let mut name = text::joined(dbname, "/");
    name.append("MANIFEST-");
    text::push_decimal_6(&mut name, number);
    assert(name@ =~= within(dbname@, manifest_name(number)));
    name
}

pub fn current_file_name(dbname: &str) -> (name: String)
    ensures
        name@ == within(dbname@, "CURRENT"@),
{
    let mut name = text::joined(dbname, "/");
    name.append("CURRENT");
    name
}

pub fn lock_file_name(dbname: &str) -> (name: String)
    ensures
        name@ == within(dbname@, "LOCK"@),
{
    let mut name = text::joined(dbname, "/");
    name.append("LOCK");
    name
}

pub fn temp_file_name(dbname: &str, number: u64) -> (name: String)
    ensures
        name@ == numbered(dbname@, number, "dbtmp"@),
{
    make_file_name(dbname, number, "dbtmp")
}

pub fn info_log_file_name(dbname: &str) -> (name: String)
    ensures
        name@ == within(dbname@, "LOG"@),
{
    let mut name = text::joined(dbname, "/");
    name.append("LOG");
    name
}

pub fn old_info_log_file_name(dbname: &str) -> (name: String)
    ensures
        name@ == within(dbname@, "LOG.old"@),
{
    let mut name = text::joined(dbname, "/");
    name.append("LOG.old");
    name
}

/// The bytes of the `CURRENT` file that names a manifest.
pub open spec fn current_contents(number: u64) -> Seq<u8> {
    vstd::utf8::encode_utf8(manifest_name(number) + "\n"@)
}

/// Makes `CURRENT` name a manifest: the name is written to a temporary file, which
/// is synced and then moved over `CURRENT`. On a failure `CURRENT` is as it was, and
/// the temporary file is deleted.
pub fn set_current_file<E: Env>(env: &mut E, dbname: &str, descriptor_number: u64) -> (outcome:
    status::Result<()>)
    requires
        old(env).wf(),
    ensures
        final(env).wf(),
        final(env).locks() == old(env).locks(),
        final(env).reliable() == old(env).reliable(),
        outcome is Ok ==> final(env).files() == old(env).files().remove(
            numbered(dbname@, descriptor_number, "dbtmp"@),
        ).insert(within(dbname@, "CURRENT"@), current_contents(descriptor_number)),
        outcome is Ok ==> final(env).synced().contains(within(dbname@, "CURRENT"@)),
        outcome is Err && old(env).deletes() ==> !final(env).files().contains_key(
            numbered(dbname@, descriptor_number, "dbtmp"@),
        ),
        outcome is Err ==> env::agree_but(
            old(env).files(),
            final(env).files(),
            numbered(dbname@, descriptor_number, "dbtmp"@),
        ),
        old(env).reliable() ==> outcome is Ok,
{
    let mut contents = text::joined("MANIFEST-", "");
    text::push_decimal_6(&mut contents, descriptor_number);
    contents.append("\n");
    proof {
        reveal_strlit("");
        assert(contents@ =~= manifest_name(descriptor_number) + "\n"@);
    }
    let tmp = temp_file_name(dbname, descriptor_number);
    let ghost mut opened = env.files();
    let written = match env.new_writable_file(tmp.as_str()) {
        Err(error) => Err(error),
        Ok(mut file) => match file.append(contents.as_str().as_bytes()) {
            Err(error) => Err(error),
            Ok(_) => {
                assert(file.written() =~= current_contents(descriptor_number));
                proof {
                    opened = env.files();
                }
                env.finish_file(tmp.as_str(), &mut file)
            },
        },
    };
    match written {
        Err(error) => {
            let ghost before = env.files();
            let _ = env.delete_file(tmp.as_str());
            proof {
                assert forall|path: Seq<char>| path != tmp@ implies #[trigger] old(
                    env,
                ).files().contains_key(path) == env.files().contains_key(path)
                    && old(env).files()[path] == env.files()[path] by {
                    assert(opened.contains_key(path) == old(env).files().contains_key(path));
                    assert(before.contains_key(path) == env.files().contains_key(path));
                }
            }
            return Err(error);
        },
        Ok(_) => {},
    }
    let current = current_file_name(dbname);
    match env.rename_file(tmp.as_str(), current.as_str()) {
        Ok(_) => {
            proof {
                assert(env.files() =~= old(env).files().remove(tmp@).insert(
                    current@,
                    current_contents(descriptor_number),
                ));
            }
            Ok(())
        },
        Err(error) => {
            let _ = env.delete_file(tmp.as_str());
            Err(error)
        },
    }
}

/// Where the last slash of a path is, or -1.
pub open spec fn last_slash(path: Seq<char>) -> int
    decreases path.len(),
{
    if path.len() == 0 {
        -1
    } else if path.last() == '/' {
        path.len() - 1
    } else {
        last_slash(path.drop_last())
    }
}

/// The last part of a path.
pub open spec fn base_name(path: Seq<char>) -> Seq<char> {
    path.skip(last_slash(path) + 1)
}

/// Where the first dot of a name is, from `from` on; the end if there is none.
pub open spec fn first_dot(name: Seq<char>, from: int) -> int
    decreases name.len() - from,
{
    if from < 0 || from >= name.len() || name[from] == '.' {
        from
    } else {
        first_dot(name, from + 1)
    }
}

/// What a suffix tells of a file.
pub open spec fn suffix_type(suffix: Seq<char>) -> Option<FileType> {
    if suffix == "log"@ {
        Some(FileType::LogFile)
    } else if suffix == "ldb"@ || suffix == "sst"@ {
        Some(FileType::TableFile)
    } else if suffix == "dbtmp"@ {
        Some(FileType::TempFile)
    } else {
        None
    }
}

/// The number and the kind of file that a name in the directory tells.
pub open spec fn parsed_name(name: Seq<char>) -> Option<(u64, FileType)> {
    if name == "CURRENT"@ {
        Some((0u64, FileType::CurrentFile))
    } else if name == "LOCK"@ {
        Some((0u64, FileType::DbLockFile))
    } else if name == "LOG"@ || name == "LOG.old"@ {
        Some((0u64, FileType::InfoLogFile))
    } else if "MANIFEST-"@.is_prefix_of(name) {
        match text::parsed_number(name.skip("MANIFEST-"@.len() as int)) {
            Some(number) => Some((number, FileType::DescriptorFile)),
            None => None,
        }
    } else {
        let dot = first_dot(name, 0);
        if dot < name.len() {
            match (text::parsed_number(name.take(dot)), suffix_type(name.skip(dot + 1))) {
                (Some(number), Some(file_type)) => Some((number, file_type)),
                _ => None,
            }
        } else {
            None
        }
    }
}

/// Finds the last part of a path.
pub fn file_base_name(path: &str) -> (name: &str)
    ensures
        name@ == base_name(path@),
{
    let length: usize = path.unicode_len();
    let mut start: usize = length;
    while start > 0 && path.get_char(start - 1) != '/'
        invariant
            start <= length,
            length == path@.len(),
            forall|i: int| start <= i < length ==> path@[i] != '/',
        decreases start,
    {
        start = start - 1;
    }
    proof {
        if start > 0 {
            lemma_last_slash_at(path@, start - 1);
        } else {
            lemma_no_slash(path@);
        }
        assert(path@.subrange(start as int, length as int) =~= path@.skip(start as int));
    }
    path.substring_char(start, length)
}

/// Reads the number and the kind of a file from its name; `None` for names that no
/// file of a database has.
pub fn parse_file_name(filename: &str) -> (parsed: Option<(u64, FileType)>)
    ensures
        parsed == parsed_name(base_name(filename@)),
{
    let name = file_base_name(filename);
    if text::same_text(name, "CURRENT") {
        return Some((0, FileType::CurrentFile));
    }
    if text::same_text(name, "LOCK") {
        return Some((0, FileType::DbLockFile));
    }
    if text::same_text(name, "LOG") || text::same_text(name, "LOG.old") {
        return Some((0, FileType::InfoLogFile));
    }
    let length: usize = name.unicode_len();
    if text::has_prefix(name, "MANIFEST-") {
        proof {
            reveal_strlit("MANIFEST-");
            assert(name@.subrange(9, length as int) =~= name@.skip(9));
        }
        return match text::parse_number(name.substring_char(9, length)) {
            Some(number) => Some((number, FileType::DescriptorFile)),
            None => None,
        };
    }
    let mut dot: usize = 0;
    while dot < length && name.get_char(dot) != '.'
        invariant
            dot <= length,
            length == name@.len(),
            first_dot(name@, 0) == first_dot(name@, dot as int),
        decreases length - dot,
    {
        dot = dot + 1;
    }
    if dot >= length {
        return None;
    }
    assert(name@.subrange(0, dot as int) =~= name@.take(dot as int));
    assert(name@.subrange(dot + 1, length as int) =~= name@.skip(dot + 1));
    let number = match text::parse_number(name.substring_char(0, dot)) {
        Some(number) => number,
        None => {
            return None;
        },
    };
    let suffix = name.substring_char(dot + 1, length);
    if text::same_text(suffix, "log") {
        Some((number, FileType::LogFile))
    } else if text::same_text(suffix, "ldb") || text::same_text(suffix, "sst") {
        Some((number, FileType::TableFile))
    } else if text::same_text(suffix, "dbtmp") {
        Some((number, FileType::TempFile))
    } else {
        None
    }
}

/// Whether a name has no slash, so that it is one part of a path.
pub open spec fn is_plain(name: Seq<char>) -> bool {
    forall|i: int| 0 <= i < name.len() ==> name[i] != '/'
}

/// The last part of a path in the directory is the name in the directory.
pub proof fn lemma_base_name(dbname: Seq<char>, name: Seq<char>)
    requires
        is_plain(name),
    ensures
        base_name(within(dbname, name)) == name,
    decreases name.len(),
{
    reveal_strlit("/");
    let path = within(dbname, name);
    lemma_last_slash_at(path, dbname.len() as int);
    assert(base_name(path) =~= name);
}

proof fn lemma_last_slash_at(path: Seq<char>, at: int)
    requires
        0 <= at < path.len(),
        path[at] == '/',
        forall|i: int| at < i < path.len() ==> path[i] != '/',
    ensures
        last_slash(path) == at,
    decreases path.len(),
{
    if path.len() - 1 > at {
        lemma_last_slash_at(path.drop_last(), at);
    }
}

proof fn lemma_no_slash(path: Seq<char>)
    requires
        is_plain(path),
    ensures
        last_slash(path) == -1,
    decreases path.len(),
{
    if path.len() > 0 {
        lemma_no_slash(path.drop_last());
    }
}

proof fn lemma_first_dot(name: Seq<char>, from: int, at: int)
    requires
        0 <= from <= at < name.len(),
        name[at] == '.',
        forall|i: int| from <= i < at ==> name[i] != '.',
    ensures
        first_dot(name, from) == at,
    decreases at - from,
{
    if from < at {
        lemma_first_dot(name, from + 1, at);
    }
}

/// A numbered file is told by its suffix: its number is read back.
pub proof fn law_numbered_names(dbname: Seq<char>, number: u64)
    ensures
        parsed_name(base_name(numbered(dbname, number, "log"@))) == Some(
            (number, FileType::LogFile),
        ),
        parsed_name(base_name(numbered(dbname, number, "ldb"@))) == Some(
            (number, FileType::TableFile),
        ),
        parsed_name(base_name(numbered(dbname, number, "sst"@))) == Some(
            (number, FileType::TableFile),
        ),
        parsed_name(base_name(numbered(dbname, number, "dbtmp"@))) == Some(
            (number, FileType::TempFile),
        ),
{
    reveal_strlit("log");
    reveal_strlit("ldb");
    reveal_strlit("sst");
    reveal_strlit("dbtmp");
    lemma_numbered(dbname, number, "log"@);
    lemma_numbered(dbname, number, "ldb"@);
    lemma_numbered(dbname, number, "sst"@);
    lemma_numbered(dbname, number, "dbtmp"@);
    assert("log"@[1] == 'o' && "ldb"@[1] == 'd' && "sst"@[1] == 's' && "dbtmp"@[1] == 'b');
}

proof fn lemma_numbered(dbname: Seq<char>, number: u64, suffix: Seq<char>)
    requires
        is_plain(suffix),
    ensures
        parsed_name(base_name(numbered(dbname, number, suffix))) == match suffix_type(suffix) {
            Some(file_type) => Some((number, file_type)),
            None => None,
        },
{
    reveal_strlit(".");
    reveal_strlit("CURRENT");
    reveal_strlit("LOCK");
    reveal_strlit("LOG");
    reveal_strlit("LOG.old");
    reveal_strlit("MANIFEST-");
    let digits = text::decimal_6(number as nat);
    let name = digits + "."@ + suffix;
    text::law_number_round_trip(number);
    assert(numbered(dbname, number, suffix) =~= within(dbname, name));
    assert(is_plain(name));
    lemma_base_name(dbname, name);
    assert(name[0] == digits[0]);
    assert("CURRENT"@[0] == 'C' && "LOCK"@[0] == 'L' && "LOG"@[0] == 'L' && "LOG.old"@[0] == 'L'
        && "MANIFEST-"@[0] == 'M');
    if "MANIFEST-"@.is_prefix_of(name) {
        assert(name.take(9)[0] == 'M');
    }
    lemma_first_dot(name, 0, digits.len() as int);
    assert(name.take(digits.len() as int) =~= digits);
    assert(name.skip(digits.len() as int + 1) =~= suffix);
}

/// The number of a manifest is read back from its name.
pub proof fn law_descriptor_name(dbname: Seq<char>, number: u64)
    ensures
        parsed_name(base_name(within(dbname, manifest_name(number)))) == Some(
            (number, FileType::DescriptorFile),
        ),
{
    reveal_strlit("CURRENT");
    reveal_strlit("LOCK");
    reveal_strlit("LOG");
    reveal_strlit("LOG.old");
    reveal_strlit("MANIFEST-");
    let digits = text::decimal_6(number as nat);
    let name = manifest_name(number);
    text::law_number_round_trip(number);
    assert(is_plain(name));
    lemma_base_name(dbname, name);
    assert(name[0] == 'M');
    assert("CURRENT"@[0] == 'C' && "LOCK"@[0] == 'L' && "LOG"@[0] == 'L' && "LOG.old"@[0] == 'L');
    assert(name.take(9) =~= "MANIFEST-"@);
    assert(name.skip(9) =~= digits);
}

/// The files that have no number are told by their names.
pub proof fn law_plain_names(dbname: Seq<char>)
    ensures
        parsed_name(base_name(within(dbname, "CURRENT"@))) == Some((0u64, FileType::CurrentFile)),
        parsed_name(base_name(within(dbname, "LOCK"@))) == Some((0u64, FileType::DbLockFile)),
        parsed_name(base_name(within(dbname, "LOG"@))) == Some((0u64, FileType::InfoLogFile)),
        parsed_name(base_name(within(dbname, "LOG.old"@))) == Some((0u64, FileType::InfoLogFile)),
{
    reveal_strlit("CURRENT");
    reveal_strlit("LOCK");
    reveal_strlit("LOG");
    reveal_strlit("LOG.old");
    lemma_base_name(dbname, "CURRENT"@);
    lemma_base_name(dbname, "LOCK"@);
    lemma_base_name(dbname, "LOG"@);
    lemma_base_name(dbname, "LOG.old"@);
    assert("CURRENT"@.len() == 7 && "LOCK"@.len() == 4 && "LOG"@.len() == 3 && "LOG.old"@.len()
        == 7);
    assert("CURRENT"@[0] == 'C' && "LOG.old"@[0] == 'L');
}

proof fn lemma_dot_behind_number(number_text: Seq<char>, suffix: Seq<char>, number: u64)
    requires
        text::parsed_number(number_text) == Some(number),
    ensures
        first_dot(number_text + "."@ + suffix, 0) == number_text.len(),
        (number_text + "."@ + suffix).take(number_text.len() as int) == number_text,
        (number_text + "."@ + suffix).skip(number_text.len() as int + 1) == suffix,
        number_text.len() > 0,
        number_text[0] == '+' || text::is_digit(number_text[0]),
{
    reveal_strlit(".");
    let name = number_text + "."@ + suffix;
    let digits = if number_text.len() > 0 && number_text[0] == '+' {
        number_text.skip(1)
    } else {
        number_text
    };
    assert forall|i: int| 0 <= i < number_text.len() implies name[i] != '.' by {
        if number_text[0] == '+' {
            if i > 0 {
                assert(text::is_digit(digits[i - 1]));
            }
        } else {
            assert(text::is_digit(digits[i]));
        }
    }
    if number_text[0] != '+' {
        assert(text::is_digit(digits[0]));
    }
    lemma_first_dot(name, 0, number_text.len() as int);
    assert(name.take(number_text.len() as int) =~= number_text);
    assert(name.skip(number_text.len() as int + 1) =~= suffix);
}

/// Whether a name is a number, a dot and a suffix.
pub open spec fn is_number_with(name: Seq<char>, suffix: Seq<char>, number: u64) -> bool {
    exists|digits: Seq<char>| #[trigger]
        text::parsed_number(digits) == Some(number) && name == digits + "."@ + suffix
}

proof fn lemma_number_with(name: Seq<char>, suffix: Seq<char>, number: u64)
    requires
        is_number_with(name, suffix, number),
    ensures
        parsed_name(name) == match suffix_type(suffix) {
            Some(kind) => Some((number, kind)),
            None => None,
        },
{
    let digits = choose|digits: Seq<char>| #[trigger]
        text::parsed_number(digits) == Some(number) && name == digits + "."@ + suffix;
    lemma_dot_behind_number(digits, suffix, number);
    reveal_strlit("CURRENT");
    reveal_strlit("LOCK");
    reveal_strlit("LOG");
    reveal_strlit("LOG.old");
    reveal_strlit("MANIFEST-");
    assert(name[0] == digits[0]);
    assert("CURRENT"@[0] == 'C' && "LOCK"@[0] == 'L' && "LOG"@[0] == 'L' && "LOG.old"@[0] == 'L'
        && "MANIFEST-"@[0] == 'M');
    assert(name[0] != 'C' && name[0] != 'L' && name[0] != 'M');
    assert(!"MANIFEST-"@.is_prefix_of(name)) by {
        if "MANIFEST-"@.is_prefix_of(name) {
            assert(name.subrange(0, "MANIFEST-"@.len() as int)[0] == name[0]);
        }
    }
    assert(name != "CURRENT"@ && name != "LOCK"@ && name != "LOG"@ && name != "LOG.old"@);
    reveal_strlit(".");
    assert(first_dot(name, 0) < name.len());
}

proof fn lemma_split_at_dot(name: Seq<char>, dot: int)
    requires
        first_dot(name, 0) == dot,
        dot < name.len(),
    ensures
        name == name.take(dot) + "."@ + name.skip(dot + 1),
{
    reveal_strlit(".");
    lemma_dot_found(name, 0);
    assert(name =~= name.take(dot) + "."@ + name.skip(dot + 1));
}

proof fn lemma_dot_found(name: Seq<char>, from: int)
    requires
        0 <= from <= name.len(),
    ensures
        from <= first_dot(name, from) <= name.len(),
        first_dot(name, from) < name.len() ==> name[first_dot(name, from)] == '.',
    decreases name.len() - from,
{
    if from < name.len() && name[from] != '.' {
        lemma_dot_found(name, from + 1);
    }
}

/// A name tells a log just if it is a number and `.log`, a table just if it is a number and
/// `.ldb` or `.sst`, a temporary file just if it is a number and `.dbtmp`, and a manifest
/// just if it is `MANIFEST-` and a number.
pub proof fn law_names_tell_files(name: Seq<char>, number: u64)
    ensures
        parsed_name(name) == Some((number, FileType::LogFile)) <==> is_number_with(
            name,
            "log"@,
            number,
        ),
        parsed_name(name) == Some((number, FileType::TableFile)) <==> is_number_with(
            name,
            "ldb"@,
            number,
        ) || is_number_with(name, "sst"@, number),
        parsed_name(name) == Some((number, FileType::TempFile)) <==> is_number_with(
            name,
            "dbtmp"@,
            number,
        ),
        parsed_name(name) == Some((number, FileType::DescriptorFile)) <==> exists|
            digits: Seq<char>,
        | #[trigger]
            text::parsed_number(digits) == Some(number) && name == "MANIFEST-"@ + digits,
{
    reveal_strlit("log");
    reveal_strlit("ldb");
    reveal_strlit("sst");
    reveal_strlit("dbtmp");
    reveal_strlit("CURRENT");
    reveal_strlit("LOCK");
    reveal_strlit("LOG");
    reveal_strlit("LOG.old");
    reveal_strlit("MANIFEST-");
    assert("log"@[0] == 'l' && "ldb"@[0] == 'l' && "sst"@[0] == 's' && "dbtmp"@[0] == 'd');
    assert("log"@[1] == 'o' && "ldb"@[1] == 'd');
    if is_number_with(name, "log"@, number) {
        lemma_number_with(name, "log"@, number);
    }
    if is_number_with(name, "ldb"@, number) {
        lemma_number_with(name, "ldb"@, number);
    }
    if is_number_with(name, "sst"@, number) {
        lemma_number_with(name, "sst"@, number);
    }
    if is_number_with(name, "dbtmp"@, number) {
        lemma_number_with(name, "dbtmp"@, number);
    }
    if exists|digits: Seq<char>| #[trigger]
        text::parsed_number(digits) == Some(number) && name == "MANIFEST-"@ + digits {
        let digits = choose|digits: Seq<char>| #[trigger]
            text::parsed_number(digits) == Some(number) && name == "MANIFEST-"@ + digits;
        assert(name[0] == "MANIFEST-"@[0]);
        assert("MANIFEST-"@[0] == 'M');
        assert("CURRENT"@[0] == 'C' && "LOCK"@[0] == 'L' && "LOG"@[0] == 'L' && "LOG.old"@[0]
            == 'L');
        assert(name.take("MANIFEST-"@.len() as int) =~= "MANIFEST-"@);
        assert(name.skip("MANIFEST-"@.len() as int) =~= digits);
    }
    let plain = name == "CURRENT"@ || name == "LOCK"@ || name == "LOG"@ || name == "LOG.old"@;
    if !plain {
        if "MANIFEST-"@.is_prefix_of(name) {
            let digits = name.skip("MANIFEST-"@.len() as int);
            assert(name =~= "MANIFEST-"@ + digits);
            assert(text::parsed_number(digits) == Some(number) ==> text::parsed_number(digits)
                == Some(number));
        } else {
            let dot = first_dot(name, 0);
            lemma_dot_found(name, 0);
            if dot < name.len() {
                lemma_split_at_dot(name, dot);
                let digits = name.take(dot);
                if text::parsed_number(digits) == Some(number) {
                    assert(name == digits + "."@ + name.skip(dot + 1));
                }
            }
        }
    }
}

/// What is written to `CURRENT` is the name of the manifest and the end of the line: the name
/// tells the number.
pub proof fn law_current_names_manifest(number: u64)
    ensures
        exists|name: Seq<char>|
            current_contents(number) == vstd::utf8::encode_utf8(#[trigger] (name + "\n"@))
                && parsed_name(name) == Some((number, FileType::DescriptorFile)),
{
    let name = manifest_name(number);
    law_descriptor_name(Seq::empty(), number);
    assert(current_contents(number) == vstd::utf8::encode_utf8(name + "\n"@));
    assert(is_plain(name)) by {
        reveal_strlit("MANIFEST-");
        text::law_number_round_trip(number);
        assert forall|i: int| 0 <= i < name.len() implies name[i] != '/' by {
            if i >= "MANIFEST-"@.len() {
                let k = i - "MANIFEST-"@.len();
                assert(text::is_digit(text::decimal_6(number as nat)[k]));
            }
        }
    }
    lemma_base_name(Seq::empty(), name);
}

} // verus!
