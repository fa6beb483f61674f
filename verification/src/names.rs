//! Names and paths of files.

use vstd::prelude::*;

use crate::text;

verus! {

/// True for a name that stands for one file in its directory.
pub open spec fn is_simple(name: Seq<char>) -> bool {
    &&& name.len() > 0
    &&& name != "."@
    &&& name != ".."@
    &&& !name.contains('/')
    &&& !name.contains('\\')
    &&& !name.contains('\0')
}

pub fn is_simple_name(name: &[char]) -> (is: bool)
    ensures
        is == is_simple(name@),
{
    name.len() > 0 && !text::is_text(name, ".") && !text::is_text(name, "..")
        && !text::contains_char(name, '/') && !text::contains_char(name, '\\')
        && !text::contains_char(name, '\0')
}

/// A name in a directory.
pub open spec fn joined(directory: Seq<char>, name: Seq<char>) -> Seq<char> {
    if directory.len() == 0 {
        name
    } else if directory.last() == '/' {
        directory + name
    } else {
        directory + "/"@ + name
    }
}

pub fn join(directory: &[char], name: &[char]) -> (path: Vec<char>)
    ensures
        path@ == joined(directory@, name@),
{
    let mut path = text::copy_chars(directory);
    if directory.len() > 0 && directory[directory.len() - 1] != '/' {
        text::append_text(&mut path, "/");
    }
    text::append_chars(&mut path, name);
    assert(path@ =~= joined(directory@, name@));
    path
}

/// Where the last component of a path starts; both kinds of slashes part
/// components.
pub open spec fn base_start(path: Seq<char>, n: int) -> int
    decreases n,
{
    if n <= 0 {
        0
    } else if path[n - 1] == '/' || path[n - 1] == '\\' {
        n
    } else {
        base_start(path, n - 1)
    }
}

/// The last component of a path.
pub open spec fn base_name(path: Seq<char>) -> Seq<char> {
    path.skip(base_start(path, path.len() as int))
}

pub fn find_base_name(path: &[char]) -> (name: &[char])
    ensures
        name@ == base_name(path@),
{
    let mut n: usize = path.len();
    while n > 0 && path[n - 1] != '/' && path[n - 1] != '\\'
        invariant
            n <= path@.len(),
            base_start(path@, path@.len() as int) == base_start(path@, n as int),
        decreases n,
    {
        n -= 1;
    }
    assert(path@.skip(n as int) =~= path@.subrange(n as int, path@.len() as int));
    &path[n..path.len()]
}

/// Those of the first `n` names that end with a suffix.
pub open spec fn ending(names: Seq<Seq<char>>, suffix: Seq<char>, n: int) -> Seq<Seq<char>>
    decreases n,
{
    if n <= 0 {
        seq![]
    } else if text::ends_with(names[n - 1], suffix) {
        ending(names, suffix, n - 1).push(names[n - 1])
    } else {
        ending(names, suffix, n - 1)
    }
}

/// The one name that ends with a suffix, if there is just one.
pub open spec fn unique_ending(names: Seq<Seq<char>>, suffix: Seq<char>) -> Option<Seq<char>> {
    let found = ending(names, suffix, names.len() as int);
    if found.len() == 1 {
        Some(found[0])
    } else {
        None
    }
}

/// The index of the one name that ends with a suffix.
pub fn find_ending(names: &Vec<String>, suffix: &str) -> (found: Option<usize>)
    ensures
        match found {
            Some(i) => i < names@.len() && unique_ending(text::texts(names@), suffix@) == Some(
                names@[i as int]@,
            ),
            None => unique_ending(text::texts(names@), suffix@) is None,
        },
{
    let ghost all = text::texts(names@);
    let mut count: usize = 0;
    let mut last: usize = 0;
    let mut n: usize = 0;
    while n < names.len()
        invariant
            n <= names@.len(),
            all == text::texts(names@),
            count == ending(all, suffix@, n as int).len(),
            count <= n,
            count > 0 ==> last < names@.len() && ending(all, suffix@, n as int).last()
                == names@[last as int]@,
        decreases names@.len() - n,
    {
        assert(all[n as int] == names@[n as int]@);
        let name = text::chars_of(names[n].as_str());
        if text::ends(name.as_slice(), suffix) {
            count += 1;
            last = n;
        }
        n += 1;
    }
    if count == 1 {
        Some(last)
    } else {
        None
    }
}

/// True when a name is among the names.
pub fn holds_name(names: &Vec<String>, name: &[char]) -> (holds: bool)
    ensures
        holds == text::texts(names@).contains(name@),
{
    let ghost all = text::texts(names@);
    let mut n: usize = 0;
    while n < names.len()
        invariant
            n <= names@.len(),
            all == text::texts(names@),
            forall|i: int| 0 <= i < n ==> #[trigger] all[i] != name@,
        decreases names@.len() - n,
    {
        assert(all[n as int] == names@[n as int]@);
        if text::is_text(name, names[n].as_str()) {
            return true;
        }
        n += 1;
    }
    assert(all.len() == names@.len());
    false
}

/// A name in a directory is the directory, one slash and the name; without a
/// directory it is the name.
pub proof fn law_names_are_joined_by_one_slash(directory: Seq<char>, name: Seq<char>)
    ensures
        ({
            let path = joined(directory, name);
            &&& directory.len() == 0 ==> path == name
            &&& directory.len() > 0 ==> {
                &&& path.len() >= name.len() + 1
                &&& path.skip(path.len() - name.len()) == name
                &&& path[path.len() - name.len() - 1] == '/'
                &&& path.take(directory.len() as int) == directory
                &&& path.len() == directory.len() + name.len() + if directory.last() == '/' {
                    0nat
                } else {
                    1nat
                }
            }
        }),
{
    reveal_strlit("/");
    let path = joined(directory, name);
    if directory.len() > 0 {
        assert(path.skip(path.len() - name.len()) =~= name);
        assert(path.take(directory.len() as int) =~= directory);
    }
}

proof fn lemma_base_start(path: Seq<char>, n: int)
    requires
        0 <= n <= path.len(),
    ensures
        0 <= base_start(path, n) <= n,
        base_start(path, n) > 0 ==> path[base_start(path, n) - 1] == '/' || path[base_start(path, n)
            - 1] == '\\',
        forall|k: int|
            base_start(path, n) <= k < n ==> #[trigger] path[k] != '/' && path[k] != '\\',
    decreases n,
{
    if n > 0 && path[n - 1] != '/' && path[n - 1] != '\\' {
        lemma_base_start(path, n - 1);
    }
}

/// The last component of a path ends the path, holds no slash, and stands behind
/// the last slash of either kind.
pub proof fn law_base_names_end_their_path(path: Seq<char>)
    ensures
        ({
            let name = base_name(path);
            &&& name.len() <= path.len()
            &&& path.skip(path.len() - name.len()) == name
            &&& !name.contains('/') && !name.contains('\\')
            &&& name.len() < path.len() ==> path[path.len() - name.len() - 1] == '/'
                || path[path.len() - name.len() - 1] == '\\'
        }),
{
    let n = path.len() as int;
    let at = base_start(path, n);
    let name = base_name(path);
    lemma_base_start(path, n);
    assert(path.skip(n - name.len()) =~= name);
    assert forall|i: int| 0 <= i < name.len() implies #[trigger] name[i] != '/' && name[i]
        != '\\' by {
        assert(name[i] == path[at + i]);
    }
}

/// A name is found by its suffix where it is the only one that ends so.
pub proof fn law_one_name_has_the_suffix(names: Seq<Seq<char>>, suffix: Seq<char>)
    ensures
        unique_ending(names, suffix) matches Some(name) ==> {
            &&& text::ends_with(name, suffix)
            &&& exists|i: int| 0 <= i < names.len() && #[trigger] names[i] == name
            &&& forall|i: int|
                0 <= i < names.len() && text::ends_with(#[trigger] names[i], suffix) ==> names[i]
                    == name
        },
        unique_ending(names, suffix) is None ==> {
            ||| forall|i: int| 0 <= i < names.len() ==> !text::ends_with(#[trigger] names[i], suffix)
            ||| exists|i: int, j: int|
                0 <= i < j < names.len() && text::ends_with(#[trigger] names[i], suffix)
                    && text::ends_with(#[trigger] names[j], suffix)
        },
{
    lemma_ending(names, suffix, names.len() as int);
}

proof fn lemma_ending(names: Seq<Seq<char>>, suffix: Seq<char>, n: int)
    requires
        0 <= n <= names.len(),
    ensures
        ({
            let found = ending(names, suffix, n);
            &&& found.len() == 0 ==> forall|i: int|
                0 <= i < n ==> !text::ends_with(#[trigger] names[i], suffix)
            &&& found.len() >= 1 ==> exists|i: int|
                0 <= i < n && text::ends_with(#[trigger] names[i], suffix)
            &&& found.len() == 1 ==> {
                &&& text::ends_with(found[0], suffix)
                &&& exists|i: int| 0 <= i < n && #[trigger] names[i] == found[0]
                &&& forall|i: int|
                    0 <= i < n && text::ends_with(#[trigger] names[i], suffix) ==> names[i]
                        == found[0]
            }
            &&& found.len() >= 2 ==> exists|i: int, j: int|
                0 <= i < j < n && text::ends_with(#[trigger] names[i], suffix) && text::ends_with(
                    #[trigger] names[j],
                    suffix,
                )
        }),
    decreases n,
{
    if n > 0 {
        lemma_ending(names, suffix, n - 1);
        let before = ending(names, suffix, n - 1);
        if text::ends_with(names[n - 1], suffix) && before.len() >= 1 {
            let i = choose|i: int| 0 <= i < n - 1 && text::ends_with(#[trigger] names[i], suffix);
            assert(text::ends_with(names[i], suffix) && text::ends_with(names[n - 1], suffix));
        }
    }
}

} // verus!
