//! The targets of symbolic links in source trees on Windows, where links are
//! kept with the paths of the machine.

use vstd::prelude::*;

use crate::oeminfo::payload::text_of;
use crate::text;

verus! {

/// A part of a path, as the system splits it.
#[derive(Debug)]
pub enum Part {
    Current,
    Parent,
    Root,
    /// A name, a drive or a share.
    Named { name: String },
}

#[verifier::ext_equal]
pub enum PartModel {
    Current,
    Parent,
    Root,
    Named { name: Seq<char> },
}

impl View for Part {
    type V = PartModel;

    open spec fn view(&self) -> PartModel {
        match self {
            Part::Current => PartModel::Current,
            Part::Parent => PartModel::Parent,
            Part::Root => PartModel::Root,
            Part::Named { name } => PartModel::Named { name: name@ },
        }
    }
}

pub open spec fn part_models(parts: Seq<Part>) -> Seq<PartModel> {
    parts.map_values(|p: Part| p@)
}

/// `s` with slashes for backslashes.
pub open spec fn with_slashes(s: Seq<char>) -> Seq<char> {
    s.map_values(
        |c: char|
            if c == '\\' {
                '/'
            } else {
                c
            },
    )
}

/// A path in its plain form: with slashes, and without the prefix of paths that
/// the system takes as they are.
pub open spec fn plain_path(path: Seq<char>) -> Seq<char> {
    let s = with_slashes(path);
    if text::begins_with(s, "//?/UNC/"@) {
        "//"@ + s.skip("//?/UNC/"@.len() as int)
    } else if text::begins_with(s, "//?/"@) {
        s.skip("//?/"@.len() as int)
    } else {
        s
    }
}

fn replace_slashes(s: &[char]) -> (replaced: Vec<char>)
    ensures
        replaced@ == with_slashes(s@),
{
    let mut replaced: Vec<char> = Vec::new();
    let mut i: usize = 0;
    while i < s.len()
        invariant
            i <= s@.len(),
            replaced@ == with_slashes(s@).take(i as int),
        decreases s@.len() - i,
    {
        let c = s[i];
        replaced.push(
            if c == '\\' {
                '/'
            } else {
                c
            },
        );
        i += 1;
        assert(with_slashes(s@).take(i as int) =~= with_slashes(s@).take(i - 1).push(
            with_slashes(s@)[i - 1],
        ));
    }
    assert(with_slashes(s@).take(i as int) =~= with_slashes(s@));
    replaced
}

/// The plain form of a path.
pub fn plain(path: &str) -> (result: String)
    ensures
        result@ == plain_path(path@),
{
    let chars = replace_slashes(text::chars_of(path).as_slice());
    let mut out: Vec<char> = Vec::new();
    if text::starts(chars.as_slice(), "//?/UNC/") {
        let skipped: usize = text::chars_of("//?/UNC/").len();
        text::append_text(&mut out, "//");
        text::append_chars(&mut out, &chars.as_slice()[skipped..chars.len()]);
    } else if text::starts(chars.as_slice(), "//?/") {
        let skipped: usize = text::chars_of("//?/").len();
        text::append_chars(&mut out, &chars.as_slice()[skipped..chars.len()]);
    } else {
        text::append_chars(&mut out, chars.as_slice());
    }
    assert(out@ =~= plain_path(path@));
    text::string_of(out.as_slice())
}

/// True for the last part of a path from which a step up leads to the part
/// before it.
pub open spec fn has_parent(part: Seq<char>) -> bool {
    part != "/"@ && part != ".."@ && !text::ends_with(part, ":"@)
}

/// The parts of a path, with steps up undone where that is possible.
pub open spec fn components_of(parts: Seq<PartModel>, n: int) -> Seq<Seq<char>>
    decreases n,
{
    if n <= 0 {
        seq![]
    } else {
        let before = components_of(parts, n - 1);
        match parts[n - 1] {
            PartModel::Current => before,
            PartModel::Parent => if before.len() > 0 && has_parent(before.last()) {
                before.drop_last()
            } else {
                before.push(".."@)
            },
            PartModel::Root => before.push("/"@),
            PartModel::Named { name } => before.push(name),
        }
    }
}

/// The parts of a path, with steps up undone where that is possible.
pub fn windows_path_components(parts: &Vec<Part>) -> (components: Vec<String>)
    ensures
        text::texts(components@) == components_of(part_models(parts@), parts@.len() as int),
{
    let ghost all = part_models(parts@);
    let mut components: Vec<String> = Vec::new();
    let mut n: usize = 0;
    assert(text::texts(components@) =~= Seq::<Seq<char>>::empty());
    while n < parts.len()
        invariant
            n <= parts@.len(),
            all == part_models(parts@),
            text::texts(components@) == components_of(all, n as int),
        decreases parts@.len() - n,
    {
        let ghost before = text::texts(components@);
        assert(all[n as int] == parts@[n as int]@);
        match &parts[n] {
            Part::Current => {},
            Part::Parent => {
                let up = if components.len() > 0 {
                    let last = text::chars_of(components[components.len() - 1].as_str());
                    assert(before.last() == last@);
                    !text::is_text(last.as_slice(), "/") && !text::is_text(last.as_slice(), "..")
                        && !text::ends(last.as_slice(), ":")
                } else {
                    false
                };
                if up {
                    let _ = components.pop();
                    assert(text::texts(components@) =~= before.drop_last());
                } else {
                    components.push(text::string_of(text::chars_of("..").as_slice()));
                    assert(text::texts(components@) =~= before.push(".."@));
                }
            },
            Part::Root => {
                components.push(text::string_of(text::chars_of("/").as_slice()));
                assert(text::texts(components@) =~= before.push("/"@));
            },
            Part::Named { name } => {
                components.push(text::string_of(text::chars_of(name.as_str()).as_slice()));
                assert(text::texts(components@) =~= before.push(name@));
            },
        }
        n += 1;
    }
    components
}

/// True when paths are the same but for the case of their letters.
pub open spec fn are_same(left: Seq<Seq<char>>, right: Seq<Seq<char>>) -> bool {
    left.len() == right.len() && forall|i: int|
        0 <= i < left.len() ==> text::lowered(#[trigger] left[i]) == text::lowered(right[i])
}

/// Compares the first `count` parts of paths.
fn same_parts(left: &Vec<String>, right: &Vec<String>, count: usize) -> (same: bool)
    requires
        count <= left@.len(),
        count == right@.len(),
    ensures
        same == are_same(text::texts(left@).take(count as int), text::texts(right@)),
{
    let ghost a = text::texts(left@).take(count as int);
    let ghost b = text::texts(right@);
    let mut i: usize = 0;
    while i < count
        invariant
            i <= count,
            count <= left@.len(),
            count == right@.len(),
            a == text::texts(left@).take(count as int),
            b == text::texts(right@),
            forall|k: int| 0 <= k < i ==> text::lowered(#[trigger] a[k]) == text::lowered(b[k]),
        decreases count - i,
    {
        let x = text::lower(text::chars_of(left[i].as_str()).as_slice());
        let y = text::lower(text::chars_of(right[i].as_str()).as_slice());
        assert(x@ == text::lowered(a[i as int]));
        assert(y@ == text::lowered(b[i as int]));
        if !text::same_chars(x.as_slice(), y.as_slice()) {
            return false;
        }
        i += 1;
    }
    true
}

/// True when paths are the same but for the case of their letters.
pub fn windows_components_match(left: &Vec<String>, right: &Vec<String>) -> (same: bool)
    ensures
        same == are_same(text::texts(left@), text::texts(right@)),
{
    assert(text::texts(left@).take(left@.len() as int) =~= text::texts(left@));
    left.len() == right.len() && same_parts(left, right, left.len())
}

/// The parts from `from` on, with slashes between them.
pub open spec fn joined_from(parts: Seq<Seq<char>>, from: int) -> Seq<char>
    decreases parts.len() - from,
{
    if from < 0 || from >= parts.len() {
        seq![]
    } else if from + 1 == parts.len() {
        parts[from]
    } else {
        parts[from] + "/"@ + joined_from(parts, from + 1)
    }
}

fn join_from(parts: &Vec<String>, from: usize) -> (joined: Vec<char>)
    requires
        from <= parts@.len(),
    ensures
        joined@ == joined_from(text::texts(parts@), from as int),
{
    let ghost all = text::texts(parts@);
    let mut joined: Vec<char> = Vec::new();
    let mut i: usize = from;
    assert(joined@ + joined_from(all, i as int) =~= joined_from(all, from as int));
    while i < parts.len()
        invariant
            from <= i <= parts@.len(),
            all == text::texts(parts@),
            joined@ + joined_from(all, i as int) == joined_from(all, from as int),
        decreases parts@.len() - i,
    {
        let ghost before = joined@;
        text::append_text(&mut joined, parts[i].as_str());
        if i + 1 < parts.len() {
            text::append_text(&mut joined, "/");
        }
        i += 1;
        assert(joined@ + joined_from(all, i as int) =~= before + joined_from(all, i - 1));
    }
    assert(joined@ + joined_from(all, i as int) =~= joined@);
    joined
}

/// The link points to what is not in the source tree.
#[derive(Debug, Clone, Copy, PartialEq, Eq, Structural)]
pub struct OutsideTree;

/// The target of a link that the system keeps as `observed`: the recorded one
/// where it is kept unchanged, or as a path below the directory that files were
/// extracted to; what follows the root where it is below the source tree; else
/// itself, unless it leads out of the tree.
pub open spec fn target_of(
    observed: Seq<char>,
    components: Seq<Seq<char>>,
    recorded: Option<Seq<char>>,
    extracted: Option<Seq<Seq<char>>>,
    root: Seq<Seq<char>>,
) -> Option<Seq<char>> {
    let kept = match recorded {
        None => false,
        Some(target) => target == observed || text::begins_with(target, "/"@)
            && extracted is Some && are_same(components, extracted->0),
    };
    if kept {
        recorded
    } else if root.len() <= components.len() && are_same(
        components.take(root.len() as int),
        root,
    ) {
        Some("/"@ + joined_from(components, root.len() as int))
    } else if observed.contains(':') || text::begins_with(observed, "//"@) {
        None
    } else {
        Some(observed)
    }
}

/// Finds the target of a link. `observed` is what the system keeps, with
/// slashes, and `components` are its parts; `extracted` are those of the
/// recorded target below the directory that files were extracted to, and `root`
/// those of the source tree.
pub fn symlink_target(
    observed: &str,
    components: &Vec<String>,
    recorded: &Option<String>,
    extracted: &Option<Vec<String>>,
    root: &Vec<String>,
) -> (target: Result<String, OutsideTree>)
    ensures
        ({
            let wanted = target_of(
                observed@,
                text::texts(components@),
                text_of(*recorded),
                match *extracted {
                    Some(parts) => Some(text::texts(parts@)),
                    None => None,
                },
                text::texts(root@),
            );
            match target {
                Ok(found) => wanted == Some(found@),
                Err(_) => wanted is None,
            }
        }),
{
    let chars = text::chars_of(observed);
    if let Some(target) = recorded {
        let known = text::chars_of(target.as_str());
        let below = match extracted {
            Some(parts) => windows_components_match(components, parts),
            None => false,
        };
        if text::same_chars(known.as_slice(), chars.as_slice()) || text::starts(
            known.as_slice(),
            "/",
        ) && below {
            return Ok(text::string_of(known.as_slice()));
        }
    }
    if root.len() <= components.len() && same_parts(components, root, root.len()) {
        let mut out: Vec<char> = Vec::new();
        text::append_text(&mut out, "/");
        text::append_chars(&mut out, join_from(components, root.len()).as_slice());
        assert(out@ =~= "/"@ + joined_from(text::texts(components@), root@.len() as int));
        return Ok(text::string_of(out.as_slice()));
    }
    if text::contains_char(chars.as_slice(), ':') || text::starts(chars.as_slice(), "//") {
        return Err(OutsideTree);
    }
    Ok(text::string_of(chars.as_slice()))
}

/// A link to something below the root of a source tree gets the same target
/// wherever the tree stands, and however its path is written.
pub proof fn law_targets_do_not_depend_on_the_place(
    root: Seq<Seq<char>>,
    other: Seq<Seq<char>>,
    below: Seq<Seq<char>>,
    observed: Seq<char>,
    other_observed: Seq<char>,
)
    ensures
        target_of(observed, root + below, None, None, root) == target_of(
            other_observed,
            other + below,
            None,
            None,
            other,
        ),
{
    lemma_below(root, below);
    lemma_below(other, below);
}

proof fn lemma_below(root: Seq<Seq<char>>, below: Seq<Seq<char>>)
    ensures
        are_same((root + below).take(root.len() as int), root),
        joined_from(root + below, root.len() as int) == joined_from(below, 0),
{
    assert((root + below).take(root.len() as int) =~= root);
    lemma_joined_below(root, below, 0);
}

proof fn lemma_joined_below(root: Seq<Seq<char>>, below: Seq<Seq<char>>, from: int)
    requires
        0 <= from,
    ensures
        joined_from(root + below, root.len() + from) == joined_from(below, from),
    decreases below.len() - from,
{
    if from < below.len() {
        lemma_joined_below(root, below, from + 1);
        assert((root + below)[root.len() + from] == below[from]);
    }
}

/// A path has slashes in place of backslashes, and is otherwise as it was.
pub proof fn law_backslashes_become_slashes(s: Seq<char>, i: int)
    requires
        0 <= i < s.len(),
    ensures
        with_slashes(s).len() == s.len(),
        s[i] == '\\' ==> with_slashes(s)[i] == '/',
        s[i] != '\\' ==> with_slashes(s)[i] == s[i],
{
}

/// The prefix `//?/` is taken off a path, and `//?/UNC/` becomes two slashes.
pub proof fn law_prefixes_are_taken_off(rest: Seq<char>)
    requires
        !rest.contains('\\'),
    ensures
        plain_path(seq!['/', '/', '?', '/', 'U', 'N', 'C', '/'] + rest) == seq!['/', '/'] + rest,
        rest.len() < 4 || rest.take(4) != seq!['U', 'N', 'C', '/'] ==> plain_path(
            seq!['/', '/', '?', '/'] + rest,
        ) == rest,
{
    reveal_strlit("//?/UNC/");
    reveal_strlit("//?/");
    reveal_strlit("//");
    assert forall|i: int| 0 <= i < rest.len() implies #[trigger] rest[i] != '\\' by {
        assert(rest.contains(rest[i]));
    }
    let long = seq!['/', '/', '?', '/', 'U', 'N', 'C', '/'] + rest;
    assert(with_slashes(long) =~= long);
    assert(long.take(8) =~= "//?/UNC/"@);
    assert(long.skip(8) =~= rest);
    assert("//"@ =~= seq!['/', '/']);
    let short = seq!['/', '/', '?', '/'] + rest;
    assert(with_slashes(short) =~= short);
    assert(short.take(4) =~= "//?/"@);
    assert(short.skip(4) =~= rest);
    if text::begins_with(short, "//?/UNC/"@) {
        let head = short.take(8);
        assert(head == "//?/UNC/"@);
        assert(rest.len() >= 4);
        assert(head[4] == rest[0] && head[5] == rest[1] && head[6] == rest[2] && head[7] == rest[3]);
        assert(rest.take(4) =~= seq!['U', 'N', 'C', '/']);
    }
}

/// The parts of a path come in their order: a step to the same place is left out,
/// and a step up takes away the part before it, unless there is none or it is a root,
/// a drive or a step up itself.
pub proof fn law_steps_up_are_undone(parts: Seq<PartModel>, part: PartModel)
    ensures
        ({
            let n = parts.len() as int;
            let before = components_of(parts, n);
            let after = components_of(parts.push(part), n + 1);
            let undone = before.len() > 0 && before.last() != "/"@ && before.last() != ".."@ && !(
            before.last().len() > 0 && before.last().last() == ':');
            match part {
                PartModel::Current => after == before,
                PartModel::Parent => after == if undone {
                    before.drop_last()
                } else {
                    before.push(".."@)
                },
                PartModel::Root => after == before.push("/"@),
                PartModel::Named { name } => after == before.push(name),
            }
        }),
        components_of(seq![], 0).len() == 0,
{
    reveal_strlit(":");
    lemma_components_prefix(parts, part, parts.len() as int);
    let before = components_of(parts, parts.len() as int);
    if before.len() > 0 {
        let last = before.last();
        if last.len() > 0 {
            let end = last.skip(last.len() - 1);
            assert(end[0] == last.last());
            if last.last() == ':' {
                assert(end =~= ":"@);
            }
            assert(":"@[0] == ':');
        }
    }
}

proof fn lemma_components_prefix(parts: Seq<PartModel>, part: PartModel, n: int)
    requires
        n <= parts.len(),
    ensures
        components_of(parts.push(part), n) == components_of(parts, n),
    decreases n,
{
    if n > 0 {
        lemma_components_prefix(parts, part, n - 1);
    }
}

/// A link keeps the target that was recorded of it where that is what is seen, or
/// where it leads to the place that it was extracted to; else one that leads into the
/// sources becomes a path from the root of the image, one with a drive or a server is
/// refused, and any other one stays as it is seen.
pub proof fn law_targets_of_links(
    observed: Seq<char>,
    components: Seq<Seq<char>>,
    recorded: Seq<char>,
    root: Seq<Seq<char>>,
)
    ensures
        target_of(observed, components, Some(observed), None, root) == Some(observed),
        ({
            let inside = root.len() <= components.len() && are_same(
                components.take(root.len() as int),
                root,
            );
            let found = target_of(observed, components, None, None, root);
            &&& inside ==> found == Some("/"@ + joined_from(components, root.len() as int))
            &&& !inside && observed.contains(':') ==> found is None
            &&& !inside && !observed.contains(':') && !text::begins_with(observed, "//"@) ==> found
                == Some(observed)
            &&& recorded.len() > 0 && recorded[0] == '/' ==> target_of(
                observed,
                components,
                Some(recorded),
                Some(components),
                root,
            ) == Some(recorded)
        }),
{
    reveal_strlit("/");
    if recorded.len() > 0 && recorded[0] == '/' {
        assert(recorded.take(1) =~= "/"@);
    }
}

/// Parts are joined with a slash between each two.
pub proof fn law_parts_are_joined(part: Seq<char>, rest: Seq<Seq<char>>)
    ensures
        rest.len() == 0 ==> joined_from(seq![part] + rest, 0) == part,
        rest.len() > 0 ==> joined_from(seq![part] + rest, 0) == part + seq!['/'] + joined_from(
            rest,
            0,
        ),
{
    reveal_strlit("/");
    assert("/"@ =~= seq!['/']);
    let all = seq![part] + rest;
    lemma_below(seq![part], rest);
    assert(all[0] == part);
}

} // verus!
