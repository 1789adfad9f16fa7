//! The scroll model: a named, ordered bundle of tasks loaded from a
//! directory, plus the path arithmetic that locates scroll directories.

use vstd::prelude::*;

use crate::tasks::{Task, TaskContainer};

verus! {

/// A named, ordered bundle of tasks.  `name` is the final component of the
/// directory the bundle was loaded from.
#[derive(Debug, Clone, PartialEq)]
pub struct Scroll {
    pub name: String,
    pub tasks: Vec<TaskContainer>,
}

/// The index right after the last `'/'` of `s`, or 0 when `s` holds none.
pub open spec fn spec_cut(s: Seq<char>) -> int
    decreases s.len(),
{
    if s.len() == 0 {
        0
    } else if s[s.len() - 1] == '/' {
        s.len() as int
    } else {
        spec_cut(s.drop_last())
    }
}

/// The part of a path after its last `'/'`: the final path component.
pub open spec fn spec_last_component(s: Seq<char>) -> Seq<char> {
    s.subrange(spec_cut(s), s.len() as int)
}

/// `spec_cut(s)` is the one index that has a `'/'` right before it (or is
/// 0) and no `'/'` anywhere after it.
pub proof fn lemma_cut_characterization(s: Seq<char>, i: int)
    requires
        0 <= i <= s.len(),
        i == 0 || s[i - 1] == '/',
        forall|k: int| i <= k < s.len() ==> s[k] != '/',
    ensures
        spec_cut(s) == i,
    decreases s.len(),
{
    if s.len() == 0 {
    } else if s[s.len() - 1] == '/' {
        assert(i == s.len());
    } else {
        assert(i < s.len());
        assert(forall|k: int| i <= k < s.drop_last().len() ==> s.drop_last()[k] != '/');
        if i > 0 {
            assert(s.drop_last()[i - 1] == '/');
        }
        lemma_cut_characterization(s.drop_last(), i);
    }
}

/// The final component of `path`: everything after the last `'/'`, or the
/// whole of `path` when it holds no `'/'`.
pub fn last_component(path: &str) -> (r: String)
    ensures
        r@ == spec_last_component(path@),
{
    let n = path.unicode_len();
    let mut i: usize = n;
    while i > 0 && path.get_char(i - 1) != '/'
        invariant
            0 <= i <= n,
            n == path@.len(),
            forall|k: int| i <= k < n ==> path@[k] != '/',
        decreases i,
    {
        i = i - 1;
    }
    proof {
        lemma_cut_characterization(path@, i as int);
    }
    path.substring_char(i, n).to_owned()
}

/// Builds a scroll from the directory it was read from and its decoded
/// task list: the scroll's name is the directory's final path component,
/// and every task is tagged with that directory so a file push can resolve
/// its source later.
pub fn scroll_from_dir(scroll_dir_path: &str, tasks: Vec<Task>) -> (r: Scroll)
    ensures
        r.name@ == spec_last_component(scroll_dir_path@),
        r.tasks@.len() == tasks@.len(),
        forall|i: int|
            0 <= i < tasks@.len() ==> (#[trigger] r.tasks@[i]).scroll_dir_path@
                == scroll_dir_path@ && r.tasks@[i].task == tasks@[i],
{
    let ghost orig = tasks@;
    let mut rest = tasks;
    let mut tagged: Vec<TaskContainer> = Vec::new();
    while rest.len() > 0
        invariant
            tagged@.len() + rest@.len() == orig.len(),
            rest@ == orig.skip(tagged@.len() as int),
            forall|i: int|
                0 <= i < tagged@.len() ==> (#[trigger] tagged@[i]).scroll_dir_path@
                    == scroll_dir_path@ && tagged@[i].task == orig[i],
        decreases rest@.len(),
    {
        let t = rest.remove(0);
        assert(t == orig[tagged@.len() as int]);
        tagged.push(TaskContainer { scroll_dir_path: scroll_dir_path.to_owned(), task: t });
        proof {
            assert(rest@ =~= orig.skip(tagged@.len() as int));
        }
    }
    Scroll { name: last_component(scroll_dir_path), tasks: tagged }
}

/// Where the scroll named `name` lives under the project root:
/// `<root>/scrolls/<name>`.
pub open spec fn spec_scroll_dir(root: Seq<char>, name: Seq<char>) -> Seq<char> {
    root + "/scrolls/"@ + name
}

/// The directories of the named scrolls, one per name, in the declared
/// order of the inventory.
pub fn scroll_dirs(root: &str, names: &Vec<String>) -> (r: Vec<String>)
    ensures
        r@.len() == names@.len(),
        forall|i: int|
            0 <= i < names@.len() ==> (#[trigger] r@[i])@ == spec_scroll_dir(
                root@,
                names@[i]@,
            ),
{
    let mut r: Vec<String> = Vec::new();
    let mut i: usize = 0;
    while i < names.len()
        invariant
            0 <= i <= names@.len(),
            r@.len() == i,
            forall|k: int|
                0 <= k < i ==> (#[trigger] r@[k])@ == spec_scroll_dir(root@, names@[k]@),
        decreases names@.len() - i,
    {
        let mut dir = root.to_owned();
        dir.append("/scrolls/");
        dir.append(names[i].as_str());
        r.push(dir);
        i += 1;
    }
    r
}

/// Where a scroll's task list lives inside its directory:
/// `<scroll-dir>/main.yml`.
pub fn scroll_manifest(scroll_dir_path: &str) -> (r: String)
    ensures
        r@ == scroll_dir_path@ + "/main.yml"@,
{
    let mut p = scroll_dir_path.to_owned();
    p.append("/main.yml");
    p
}

/// Resolves a file push's source against its scroll's directory:
/// `<scroll-dir>/<source>`.
pub fn resolve_source(scroll_dir_path: &str, source: &str) -> (r: String)
    ensures
        r@ == scroll_dir_path@ + "/"@ + source@,
{
    let mut p = scroll_dir_path.to_owned();
    p.append("/");
    p.append(source);
    p
}

} // verus!
