//! How paths lie in directories.

use vstd::prelude::*;

use crate::env;
use crate::filename;

verus! {

proof fn lemma_part(path: Seq<char>, from: int)
    requires
        0 <= from <= path.len(),
    ensures
        ({
            let end = env::part_end(path, from);
            &&& from <= end <= path.len()
            &&& end == path.len() || path[end] == '/'
            &&& forall|i: int| from <= i < end ==> path[i] != '/'
        }),
    decreases path.len() - from,
{
    if from < path.len() && path[from] != '/' {
        lemma_part(path, from + 1);
    }
}

/// A path that starts with a directory and a name is led to by that name in the directory.
pub proof fn law_child_leads_to_path(dir: Seq<char>, name: Seq<char>, rest: Seq<char>)
    requires
        name.len() > 0,
        filename::is_plain(name),
    ensures
        env::child_towards(dir + "/"@ + name, dir) == Some(dir + "/"@ + name),
        env::child_towards(dir + "/"@ + name + "/"@ + rest, dir) == Some(dir + "/"@ + name),
{
    reveal_strlit("/");
    let child = dir + "/"@ + name;
    let path = child + "/"@ + rest;
    let start = dir.len() as int + 1;
    lemma_part(child, start);
    lemma_part(path, start);
    assert(child.take(start) =~= dir + "/"@);
    assert(path.take(start) =~= dir + "/"@);
    let end = env::part_end(child, start);
    if end < child.len() {
        assert(child[end] == name[end - start]);
    }
    assert(child.take(child.len() as int) =~= child);
    let later = env::part_end(path, start);
    if later < child.len() {
        assert(path[later] == name[later - start]);
    }
    if later > child.len() {
        assert(path[child.len() as int] == '/');
    }
    assert(path.take(child.len() as int) =~= child);
}

/// What leads from a directory to a path is the directory and a name, and the path is that
/// or lies below it. Nothing leads to a path that does not start with the directory.
pub proof fn law_child_is_a_name(dir: Seq<char>, path: Seq<char>)
    ensures
        env::child_towards(path, dir) matches Some(child) ==> {
            let name = child.skip(dir.len() as int + 1);
            &&& child == dir + "/"@ + name
            &&& name.len() > 0
            &&& filename::is_plain(name)
            &&& path == child || (child + "/"@).is_prefix_of(path)
        },
        !(dir + "/"@).is_prefix_of(path) ==> env::child_towards(path, dir) is None,
{
    reveal_strlit("/");
    match env::child_towards(path, dir) {
        Some(child) => {
            let start = dir.len() as int + 1;
            let end = env::part_end(path, start);
            lemma_part(path, start);
            let name = child.skip(start);
            assert(path.take(start) =~= dir + "/"@);
            assert forall|i: int| 0 <= i < start implies path[i] == (dir + "/"@)[i] by {
                assert(path.take(start)[i] == path[i]);
            }
            assert(child =~= dir + "/"@ + name);
            assert forall|i: int| 0 <= i < name.len() implies name[i] != '/' by {
                assert(name[i] == path[start + i]);
            }
            if end < path.len() {
                assert(path.take(end + 1) =~= child + "/"@);
            } else {
                assert(path =~= child);
            }
        },
        None => {},
    }
}

/// A path lies in a directory just if it is the directory, or the directory, a slash and
/// something behind it.
pub proof fn law_lies_under(path: Seq<char>, dir: Seq<char>)
    ensures
        env::lies_under(path, dir) <==> path == dir || exists|rest: Seq<char>|
            path == #[trigger] (dir + "/"@ + rest),
{
    let top = dir + "/"@;
    if top.is_prefix_of(path) {
        assert(path =~= top + path.skip(top.len() as int));
    }
    if exists|rest: Seq<char>| path == #[trigger] (dir + "/"@ + rest) {
        let rest = choose|rest: Seq<char>| path == #[trigger] (dir + "/"@ + rest);
        assert(path.take(top.len() as int) =~= top);
    }
}

/// One text comes before another just if it is a shorter start of it, or has the lower
/// character where the two first differ.
pub proof fn law_text_order(a: Seq<char>, b: Seq<char>)
    ensures
        env::text_before(a, b) <==> exists|at: int|
            0 <= at <= a.len() && at < b.len() && #[trigger] a.take(at) == b.take(at) && (at
                == a.len() || a[at] < b[at]),
    decreases a.len(),
{
    if b.len() > 0 {
        if a.len() > 0 && a[0] == b[0] {
            let (x, y) = (a.skip(1), b.skip(1));
            law_text_order(x, y);
            if env::text_before(x, y) {
                let at = choose|at: int|
                    0 <= at <= x.len() && at < y.len() && #[trigger] x.take(at) == y.take(at) && (at
                        == x.len() || x[at] < y[at]);
                assert(a.take(at + 1) =~= seq![a[0]] + x.take(at));
                assert(b.take(at + 1) =~= seq![b[0]] + y.take(at));
                assert(a.take(at + 1) == b.take(at + 1));
            }
            if exists|at: int|
                0 <= at <= a.len() && at < b.len() && #[trigger] a.take(at) == b.take(at) && (at
                    == a.len() || a[at] < b[at]) {
                let at = choose|at: int|
                    0 <= at <= a.len() && at < b.len() && #[trigger] a.take(at) == b.take(at) && (at
                        == a.len() || a[at] < b[at]);
                assert(x.take(at - 1) =~= a.take(at).skip(1));
                assert(y.take(at - 1) =~= b.take(at).skip(1));
                assert(x.take(at - 1) == y.take(at - 1));
            }
        } else {
            assert(a.take(0) =~= b.take(0));
            if exists|at: int|
                0 <= at <= a.len() && at < b.len() && #[trigger] a.take(at) == b.take(at) && (at
                    == a.len() || a[at] < b[at]) {
                let at = choose|at: int|
                    0 <= at <= a.len() && at < b.len() && #[trigger] a.take(at) == b.take(at) && (at
                        == a.len() || a[at] < b[at]);
                if at > 0 {
                    assert(a.take(at)[0] == b.take(at)[0]);
                }
            }
        }
    }
}

} // verus!
