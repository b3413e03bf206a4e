//! Paths of watermark files.
//!
//! How a path is taken apart depends on the operating system, so of the calls
//! that do so only what holds on all of them is stated.

use vstd::prelude::*;

verus! {

/// What separates the components of a path, on one operating system or another.
pub open spec fn is_separator(c: char) -> bool {
    c == '/' || c == '\\'
}

/// Whether a path starts at a root: with a separator, or with a drive and a
/// separator.
pub open spec fn is_rooted(path: Seq<char>) -> bool {
    ||| path.len() >= 1 && is_separator(path[0])
    ||| path.len() >= 3 && path[1] == ':' && is_separator(path[2])
}

/// The part of a text behind its last separator.
pub open spec fn behind_separators(text: Seq<char>) -> Seq<char>
    decreases text.len(),
{
    if text.len() == 0 || is_separator(text.last()) {
        Seq::empty()
    } else {
        behind_separators(text.drop_last()).push(text.last())
    }
}

/// Whether a name is that of a file on any system: not empty, no reference to a
/// directory, and without a drive.
pub open spec fn is_plain(name: Seq<char>) -> bool {
    &&& name.len() > 0
    &&& name != "."@
    &&& name != ".."@
    &&& !name.contains(':')
}

/// Whether a path is that of a file on any system: a plain name stands behind
/// its last separator, and it does not start with two separators, which mean a
/// network share or a device on some systems.
pub open spec fn is_ordinary(path: Seq<char>) -> bool {
    &&& is_plain(behind_separators(path))
    &&& !(path.len() >= 2 && is_separator(path[0]) && is_separator(path[1]))
}

/// Where the directory of a path ends: at the last separator. Before the first
/// character where the path has none.
pub open spec fn directory_end(path: Seq<char>) -> int {
    path.len() - behind_separators(path).len() - 1
}

/// Whether a directory ends with a reference to itself, which is not taken for
/// one of its components. A directory that is nothing else is taken as it is.
pub open spec fn ends_with_itself(directory: Seq<char>) -> bool {
    behind_separators(directory) == "."@ && directory != "."@
}

/// Whether a path is that of a file in a directory that is written in the same
/// way on any system: at the root, or in a directory that ends neither with a
/// separator nor with a reference to itself.
pub open spec fn in_named_directory(path: Seq<char>) -> bool {
    let end = directory_end(path);
    &&& is_ordinary(path)
    &&& !path.contains('\\')
    &&& end >= 0
    &&& end >= 1 ==> !is_separator(path[end - 1]) && !ends_with_itself(path.take(end))
}

/// Whether a path has neither directories nor a drive.
pub open spec fn is_bare(path: Seq<char>) -> bool {
    forall|i: int| 0 <= i < path.len() ==> !is_separator(#[trigger] path[i]) && path[i] != ':'
}

/// Whether `other` is the path of the file `name` in the directory of `path`.
pub open spec fn is_sibling(path: Seq<char>, other: Seq<char>, name: Seq<char>) -> bool {
    let end = directory_end(path);
    &&& other.len() == end + 1 + name.len()
    &&& other.take(end) == path.take(end)
    &&& is_separator(other[end])
    &&& other.skip(end + 1) == name
}

/// `std::path::Path::is_absolute`: whether a path does not depend on the
/// current directory. On any system such a path starts at a root. The converse
/// depends on the system and is not stated.
#[verifier::external_body]
fn is_absolute(path: &str) -> (absolute: bool)
    ensures
        absolute ==> is_rooted(path@),
{
    std::path::Path::new(path).is_absolute()
}

/// `std::path::Path::parent`: the path without its final component, if there is
/// one. It is a proper beginning of the path, and an ordinary path with a slash
/// has one that is not empty. For a file in a named directory it is that
/// directory, or the root; of a file directly below a drive this is not stated. A
/// bare path has none, or an empty one. Where the components of other paths end
/// depends on the system and is not stated.
#[verifier::external_body]
fn parent_of(path: &str) -> (parent: Option<String>)
    ensures
        parent matches Some(p) ==> p@.len() < path@.len() && p@.is_prefix_of(path@),
        is_ordinary(path@) && path@.contains('/') ==> parent is Some && parent->0@.len() > 0,
        in_named_directory(path@) && directory_end(path@) >= 1 && path@[directory_end(path@) - 1]
            != ':' ==> parent is Some && parent->0@ == path@.take(directory_end(path@)),
        in_named_directory(path@) && directory_end(path@) == 0 ==> parent is Some && parent->0@
            == path@.take(1),
        is_bare(path@) && parent is Some ==> parent->0@.len() == 0,
{
    std::path::Path::new(path).parent().map(|parent| parent.to_string_lossy().into_owned())
}

/// `std::path::Path::file_name`: the final component of a path, if there is
/// one. It is not empty, and an ordinary path has one, which ends as the path
/// does. Without backslashes it is all that stands behind the last slash. Where
/// the components of other paths end depends on the system and is not stated.
#[verifier::external_body]
fn file_name_of(path: &str) -> (name: Option<String>)
    ensures
        name matches Some(n) ==> n@.len() > 0,
        is_ordinary(path@) ==> name is Some && behind_separators(name->0@) == behind_separators(
            path@,
        ),
        is_ordinary(path@) && !path@.contains('\\') ==> name->0@ == behind_separators(path@),
{
    std::path::Path::new(path).file_name().map(|name| name.to_string_lossy().into_owned())
}

/// `std::path::Path::with_file_name`: the path with another file name in place
/// of its own. The new path ends with that name, or, where the name has
/// separators of its own, with what stands behind the last of them; of an
/// ordinary path this is all that stands behind the last separator. For a file in
/// a named directory the new path is in the same directory, and for a bare path
/// it is the new name. What stands before the name in other paths depends on the
/// system and is not stated.
#[verifier::external_body]
fn with_file_name(path: &str, name: &str) -> (renamed: String)
    requires
        behind_separators(name@).len() > 2,
    ensures
        behind_separators(name@).is_suffix_of(renamed@),
        is_ordinary(path@) && is_plain(behind_separators(name@)) ==> behind_separators(renamed@)
            == behind_separators(name@),
        in_named_directory(path@) && is_plain(name@) && behind_separators(name@) == name@
            ==> is_sibling(path@, renamed@, name@),
        is_bare(path@) && is_plain(path@) && is_plain(name@) && behind_separators(name@) == name@
            ==> renamed@ == name@,
{
    std::path::Path::new(path).with_file_name(name).to_string_lossy().into_owned()
}

/// The parent directory of a path, where it is not the current directory.
pub fn parent_to_check(path: &str) -> (parent: Option<String>)
    ensures
        parent matches Some(p) ==> 0 < p@.len() < path@.len() && p@.is_prefix_of(path@),
        is_ordinary(path@) && path@.contains('/') ==> parent is Some,
        in_named_directory(path@) && directory_end(path@) >= 1 && path@[directory_end(path@) - 1]
            != ':' ==> parent is Some && parent->0@ == path@.take(directory_end(path@)),
        in_named_directory(path@) && directory_end(path@) == 0 ==> parent is Some && parent->0@
            == path@.take(1),
        is_bare(path@) ==> parent is None,
{
    let parent = parent_of(path);
    named_parent(parent)
}

/// A parent directory, where it is named: a path without directories has an
/// empty one.
pub fn named_parent(parent: Option<String>) -> (named: Option<String>)
    ensures
        named == match parent {
            Some(p) => if p@.len() > 0 {
                Some(p)
            } else {
                None
            },
            None => None,
        },
{
    match parent {
        Some(p) => if p.as_str().is_empty() {
            None
        } else {
            Some(p)
        },
        None => None,
    }
}

/// What is said of a relative path.
pub open spec fn relative_problem() -> Seq<char> {
    "is relative, so it resolves against the process working directory"@
}

/// What is said of a path into a directory that is not there.
pub open spec fn orphan_problem() -> Seq<char> {
    "has a parent directory that does not exist"@
}

/// Why a path looks like a mistake, if it does.
pub open spec fn problem_of(
    absolute: bool,
    has_parent: bool,
    parent_is_dir: bool,
) -> Option<Seq<char>> {
    if !absolute {
        Some(relative_problem())
    } else if has_parent && !parent_is_dir {
        Some(orphan_problem())
    } else {
        None
    }
}

/// The characters of an optional description.
pub open spec fn description(problem: Option<&'static str>) -> Option<Seq<char>> {
    match problem {
        Some(text) => Some(text@),
        None => None,
    }
}

/// Why a path looks like a mistake, from what is known of it.
pub fn path_problem(absolute: bool, has_parent: bool, parent_is_dir: bool) -> (problem: Option<
    &'static str,
>)
    ensures
        description(problem) == problem_of(absolute, has_parent, parent_is_dir),
        !absolute ==> problem is Some && problem->0@
            == "is relative, so it resolves against the process working directory"@,
        absolute && has_parent && !parent_is_dir ==> problem is Some && problem->0@
            == "has a parent directory that does not exist"@,
        absolute && (!has_parent || parent_is_dir) ==> problem is None,
{
    if !absolute {
        Some("is relative, so it resolves against the process working directory")
    } else if has_parent && !parent_is_dir {
        Some("has a parent directory that does not exist")
    } else {
        None
    }
}

/// Describes why a watermark path looks like a mistake, if it does. Whether its
/// parent is a directory is told by the caller.
///
/// A missing file counts as a first run, so a path that was put together wrongly
/// would never show up as an error: nothing would ever be resumed. The
/// description is for a warning; nobody refuses to start over it.
pub fn suspect_path(path: &str, parent_is_dir: bool) -> (problem: Option<&'static str>)
    ensures
        exists|absolute: bool, has_parent: bool|
            (absolute ==> is_rooted(path@)) && description(problem) == #[trigger] problem_of(
                absolute,
                has_parent,
                parent_is_dir,
            ),
        !is_rooted(path@) ==> description(problem) == Some(relative_problem()),
        parent_is_dir ==> description(problem) != Some(orphan_problem()),
        is_ordinary(path@) && path@.contains('/') && !parent_is_dir ==> problem is Some,
{
    proof {
        lemma_problems_differ();
    }
    let absolute = is_absolute(path);
    let has_parent = parent_to_check(path).is_some();
    path_problem(absolute, has_parent, parent_is_dir)
}

/// The two descriptions are not the same.
proof fn lemma_problems_differ()
    ensures
        relative_problem() != orphan_problem(),
{
    reveal_strlit("is relative, so it resolves against the process working directory");
    reveal_strlit("has a parent directory that does not exist");
    assert(relative_problem()[0] == 'i');
    assert(orphan_problem()[0] == 'h');
}

/// A path without separators does not start at a root, so it is always flagged.
pub proof fn law_flattened_path_is_not_rooted(path: Seq<char>)
    requires
        forall|i: int| 0 <= i < path.len() ==> !is_separator(#[trigger] path[i]),
    ensures
        !is_rooted(path),
{
}

/// The name of the temporary file beside a file. A path without a file name
/// counts as one with an empty name.
pub open spec fn temp_name_of(name: Option<Seq<char>>) -> Seq<char> {
    match name {
        Some(n) => n + ".tmp"@,
        None => ".tmp"@,
    }
}

/// The name of the temporary file beside a file.
pub fn temp_name(name: &Option<String>) -> (temp: String)
    ensures
        temp@ == temp_name_of(
            match *name {
                Some(n) => Some(n@),
                None => None,
            },
        ),
{
    match name {
        Some(n) => {
            let mut temp = n.clone();
            temp.append(".tmp");
            temp
        },
        None => ".tmp".to_owned(),
    }
}

/// A name with an ending that has no separators.
proof fn lemma_behind_separators_ending(name: Seq<char>, ending: Seq<char>)
    requires
        forall|i: int| 0 <= i < ending.len() ==> !is_separator(#[trigger] ending[i]),
    ensures
        behind_separators(name + ending) == behind_separators(name) + ending,
    decreases ending.len(),
{
    if ending.len() == 0 {
        assert(name + ending =~= name);
        assert(behind_separators(name) + ending =~= behind_separators(name));
    } else {
        let rest = ending.drop_last();
        assert forall|i: int| 0 <= i < rest.len() implies !is_separator(#[trigger] rest[i]) by {
            assert(rest[i] == ending[i]);
        }
        lemma_behind_separators_ending(name, rest);
        assert(!is_separator(ending[ending.len() - 1]));
        assert((name + ending).drop_last() =~= name + rest);
        assert(behind_separators(name + ending) =~= behind_separators(name) + ending);
    }
}

/// The path of the temporary file that a watermark file is written to before it
/// replaces the old one.
pub fn temp_path(path: &str) -> (temp: String)
    ensures
        exists|name: Option<Seq<char>>|
            behind_separators(#[trigger] temp_name_of(name)).is_suffix_of(temp@),
        ".tmp"@.is_suffix_of(temp@),
        is_ordinary(path@) ==> behind_separators(temp@) == behind_separators(path@) + ".tmp"@
            && temp@ != path@,
        in_named_directory(path@) ==> is_sibling(
            path@,
            temp@,
            behind_separators(path@) + ".tmp"@,
        ),
        is_bare(path@) && is_plain(path@) ==> temp@ == path@ + ".tmp"@,
{
    let name = file_name_of(path);
    let temp_file = temp_name(&name);
    proof {
        reveal_strlit(".tmp");
        let n = match name {
            Some(n) => n@,
            None => Seq::empty(),
        };
        assert(temp_file@ =~= n + ".tmp"@);
        lemma_behind_separators_ending(n, ".tmp"@);
        reveal_strlit(".");
        reveal_strlit("..");
        if is_ordinary(path@) {
            let tail = behind_separators(path@);
            assert forall|i: int| 0 <= i < (tail + ".tmp"@).len() implies (tail + ".tmp"@)[i]
                != ':' by {
                if i < tail.len() {
                    assert(tail.contains(tail[i]));
                }
            }
            assert(is_plain(tail + ".tmp"@));
        }
        if is_bare(path@) && is_plain(path@) {
            lemma_behind_separators_ending(Seq::empty(), path@);
            assert(Seq::<char>::empty() + path@ =~= path@);
            assert(!path@.contains('\\'));
            assert(is_ordinary(path@));
            assert(temp_file@ == path@ + ".tmp"@);
        }
    }
    let temp = with_file_name(path, temp_file.as_str());
    proof {
        let tail = behind_separators(temp_file@);
        assert(".tmp"@.is_suffix_of(tail));
        assert(".tmp"@ =~= temp@.subrange(temp@.len() - 4, temp@.len() as int)) by {
            assert(tail =~= temp@.subrange(temp@.len() - tail.len(), temp@.len() as int));
            assert forall|i: int| 0 <= i < 4 implies ".tmp"@[i] == temp@[temp@.len() - 4 + i] by {
                assert(".tmp"@[i] == tail[tail.len() - 4 + i]);
            }
        }
    }
    temp
}

/// A path is its directory, the last separator, and what stands behind it.
proof fn lemma_directory_end(path: Seq<char>)
    ensures
        behind_separators(path).len() <= path.len(),
        behind_separators(path) == path.skip(directory_end(path) + 1),
        directory_end(path) >= 0 ==> is_separator(path[directory_end(path)]),
    decreases path.len(),
{
    if path.len() == 0 || is_separator(path.last()) {
        assert(path.skip(path.len() as int) =~= Seq::empty());
    } else {
        let rest = path.drop_last();
        lemma_directory_end(rest);
        assert(directory_end(path) == directory_end(rest));
        assert(path.skip(directory_end(path) + 1) =~= rest.skip(directory_end(rest) + 1).push(
            path.last(),
        ));
        if directory_end(path) >= 0 {
            assert(rest[directory_end(rest)] == path[directory_end(path)]);
        }
    }
}

/// Different files in named directories have different temporary files. `temp_a`
/// and `temp_b` are the temporary files of `a` and `b`.
pub proof fn law_temp_files_are_told_apart(
    a: Seq<char>,
    temp_a: Seq<char>,
    b: Seq<char>,
    temp_b: Seq<char>,
)
    requires
        in_named_directory(a),
        in_named_directory(b),
        is_sibling(a, temp_a, behind_separators(a) + ".tmp"@),
        is_sibling(b, temp_b, behind_separators(b) + ".tmp"@),
        behind_separators(temp_a) == behind_separators(a) + ".tmp"@,
        behind_separators(temp_b) == behind_separators(b) + ".tmp"@,
        temp_a == temp_b,
    ensures
        a == b,
{
    let x = behind_separators(a);
    let y = behind_separators(b);
    assert(x =~= (x + ".tmp"@).take((x + ".tmp"@).len() - ".tmp"@.len()));
    assert(y =~= (y + ".tmp"@).take((y + ".tmp"@).len() - ".tmp"@.len()));
    lemma_directory_end(a);
    lemma_directory_end(b);
    let end = directory_end(a);
    assert(a.contains(a[end]) && b.contains(b[end]));
    assert(a =~= a.take(end) + seq!['/'] + x);
    assert(b =~= b.take(end) + seq!['/'] + y);
}

/// A path that is not absolute is said to be relative, whatever else holds of it;
/// an absolute one is said to have a missing parent exactly where it has a parent
/// that is no directory; and of every other path nothing is said.
pub proof fn law_what_is_said_of_a_path(absolute: bool, has_parent: bool, parent_is_dir: bool)
    ensures
        !absolute ==> problem_of(absolute, has_parent, parent_is_dir) == Some(
            "is relative, so it resolves against the process working directory"@,
        ),
        absolute && has_parent && !parent_is_dir ==> problem_of(
            absolute,
            has_parent,
            parent_is_dir,
        ) == Some("has a parent directory that does not exist"@),
        absolute && (!has_parent || parent_is_dir) ==> problem_of(
            absolute,
            has_parent,
            parent_is_dir,
        ) is None,
{
}

/// The temporary file is named like the file, with an ending of its own behind
/// the whole name, so that no two names share a temporary one.
pub proof fn law_temp_name_keeps_the_name(name: Seq<char>, other: Seq<char>)
    ensures
        temp_name_of(Some(name)) == name + ".tmp"@,
        temp_name_of(Some(name)) != name,
        temp_name_of(None) == ".tmp"@,
        temp_name_of(Some(name)) == temp_name_of(Some(other)) ==> name == other,
{
    reveal_strlit(".tmp");
    let a = name + ".tmp"@;
    let b = other + ".tmp"@;
    assert(a.len() == name.len() + 4);
    if a == b {
        assert(name =~= a.take(a.len() - 4));
        assert(other =~= b.take(b.len() - 4));
    }
}

} // verus!
