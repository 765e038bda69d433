//! Paths as text, with `/` between their names.

use vstd::prelude::*;
use crate::lists;
use crate::text;
use crate::text::{chars_of, same, string_of};

verus! {

/// The maximal runs of characters other than `/` in a path, in order.
pub open spec fn parts(path: Seq<char>) -> Seq<Seq<char>>
    decreases path.len(),
{
    if path.len() == 0 {
        seq![]
    } else {
        let before = parts(path.drop_last());
        if path.last() == '/' {
            before
        } else if path.len() > 1 && path[path.len() - 2] != '/' {
            before.drop_last().push(before.last().push(path.last()))
        } else {
            before.push(seq![path.last()])
        }
    }
}

/// The names that a path is made of: a part that is a single dot stands for the
/// directory it is in and is no name.
pub open spec fn names(path: Seq<char>) -> Seq<Seq<char>> {
    parts(path).filter(|p: Seq<char>| p != seq!['.'])
}

/// The last name of a path, unless it leads to a parent directory.
pub open spec fn file_name_of(path: Seq<char>) -> Option<Seq<char>> {
    name_from_end(path, 1)
}

/// The last name of the path of a path's parent directory.
pub open spec fn parent_name_of(path: Seq<char>) -> Option<Seq<char>> {
    name_from_end(path, 2)
}

/// The name that many places from the end of a path, unless there is none or it
/// leads to a parent directory.
pub open spec fn name_from_end(path: Seq<char>, back: int) -> Option<Seq<char>> {
    let all = names(path);
    if all.len() >= back && all[all.len() - back] != seq!['.', '.'] {
        Some(all[all.len() - back])
    } else {
        None
    }
}

/// Where a character stands last in a text, or -1 where it does not.
pub open spec fn last_index(s: Seq<char>, c: char) -> int
    decreases s.len(),
{
    if s.len() == 0 {
        -1
    } else if s.last() == c {
        s.len() - 1
    } else {
        last_index(s.drop_last(), c)
    }
}

/// What follows the last dot of a path's last name, unless the name has no dot or
/// has its last one in front.
pub open spec fn extension_of(path: Seq<char>) -> Option<Seq<char>> {
    match file_name_of(path) {
        Some(name) => {
            let dot = last_index(name, '.');
            if dot > 0 {
                Some(name.skip(dot + 1))
            } else {
                None
            }
        },
        None => None,
    }
}

/// A name in a directory: the directory's path and the name, with a `/` between
/// them unless the path ends in one or is empty. A name that starts with a `/` is
/// a path of its own.
pub open spec fn join_path(dir: Seq<char>, name: Seq<char>) -> Seq<char> {
    if name.len() > 0 && name[0] == '/' {
        name
    } else if dir.len() == 0 || dir.last() == '/' {
        dir + name
    } else {
        dir.push('/') + name
    }
}

/// A path as seen from a directory that it leads into; a path that does not lead
/// there as it is.
pub open spec fn relative_path(root: Seq<char>, path: Seq<char>) -> Seq<char> {
    if path == root {
        seq![]
    } else if root.len() > 0 && root.last() == '/' && root.is_prefix_of(path) {
        path.skip(root.len() as int)
    } else if root.push('/').is_prefix_of(path) {
        path.skip(root.len() as int + 1)
    } else {
        path
    }
}

/// The names that a path is made of, in order.
pub fn names_of(path: &str) -> (r: Vec<String>)
    ensures
        text::views(r@) == names(path@),
{
    let v = chars_of(path);
    let mut done: Vec<String> = Vec::new();
    let mut open = String::new();
    let mut in_part: bool = false;
    let mut i: usize = 0;
    let ghost keep = |p: Seq<char>| p != seq!['.'];
    let ghost mut closed: Seq<Seq<char>> = seq![];
    proof {
        assert(v@.take(0) =~= seq![]);
        assert(closed.filter(keep) =~= seq![]);
        assert(text::views(done@) =~= closed.filter(keep));
    }
    while i < v.len()
        invariant
            i <= v.len(),
            keep == (|p: Seq<char>| p != seq!['.']),
            in_part == (i > 0 && v@[i - 1] != '/'),
            text::views(done@) == closed.filter(keep),
            !in_part ==> open@.len() == 0 && parts(v@.take(i as int)) == closed,
            in_part ==> parts(v@.take(i as int)) == closed.push(open@),
        decreases v.len() - i,
    {
        let c: char = v[i];
        let ghost before = parts(v@.take(i as int));
        assert(v@.take(i + 1).drop_last() =~= v@.take(i as int));
        assert(v@.take(i + 1).last() == c);
        if c == '/' {
            if in_part {
                let ghost part = open@;
                close_part(&mut done, open);
                open = String::new();
                in_part = false;
                proof {
                    closed.lemma_filter_push(part, keep);
                    closed = closed.push(part);
                    assert(text::views(done@) =~= closed.filter(keep));
                }
            }
        } else {
            open.push(c);
            proof {
                if in_part {
                    assert(v@.take(i + 1)[i - 1] == v@[i - 1]);
                    assert(before.drop_last() =~= closed);
                } else {
                    assert(open@ =~= seq![c]);
                }
            }
            in_part = true;
        }
        i += 1;
    }
    assert(v@.take(i as int) =~= path@);
    if in_part {
        let ghost part = open@;
        close_part(&mut done, open);
        proof {
            closed.lemma_filter_push(part, keep);
            assert(text::views(done@) =~= closed.push(part).filter(keep));
        }
    }
    done
}

/// Adds a part to the names, unless it is a single dot.
fn close_part(done: &mut Vec<String>, part: String)
    ensures
        text::views(final(done)@) == if part@ != seq!['.'] {
            text::views(old(done)@).push(part@)
        } else {
            text::views(old(done)@)
        },
{
    proof {
        reveal_strlit(".");
        assert("."@ =~= seq!['.']);
    }
    if !same(part.as_str(), ".") {
        let ghost p = part@;
        done.push(part);
        assert(text::views(done@) =~= text::views(old(done)@).push(p));
    }
}

/// The name that many places from the end of a path.
fn from_end(path: &str, back: usize) -> (r: Option<String>)
    requires
        back > 0,
    ensures
        match r {
            Some(name) => name_from_end(path@, back as int) == Some(name@),
            None => name_from_end(path@, back as int) is None,
        },
{
    let all = names_of(path);
    proof {
        reveal_strlit("..");
        assert(".."@ =~= seq!['.', '.']);
    }
    let ghost list = names(path@);
    assert(list.len() == all@.len());
    if all.len() < back {
        return None;
    }
    let at: usize = all.len() - back;
    assert(all@[at as int]@ == list[at as int]);
    if same(all[at].as_str(), "..") {
        None
    } else {
        Some(all[at].clone())
    }
}

/// The last name of a path, unless it leads to a parent directory.
pub fn file_name(path: &str) -> (r: Option<String>)
    ensures
        match r {
            Some(name) => file_name_of(path@) == Some(name@),
            None => file_name_of(path@) is None,
        },
{
    from_end(path, 1)
}

/// The last name of the path of a path's parent directory.
pub fn parent_name(path: &str) -> (r: Option<String>)
    ensures
        match r {
            Some(name) => parent_name_of(path@) == Some(name@),
            None => parent_name_of(path@) is None,
        },
{
    from_end(path, 2)
}

/// What follows the last dot of a path's last name.
pub fn extension(path: &str) -> (r: Option<String>)
    ensures
        match r {
            Some(ext) => extension_of(path@) == Some(ext@),
            None => extension_of(path@) is None,
        },
{
    match file_name(path) {
        None => None,
        Some(name) => {
            let v = chars_of(name.as_str());
            let mut i: usize = v.len();
            assert(v@.take(i as int) =~= v@);
            while i > 0 && v[i - 1] != '.'
                invariant
                    i <= v.len(),
                    last_index(v@, '.') == last_index(v@.take(i as int), '.'),
                decreases i,
            {
                assert(v@.take(i as int).drop_last() =~= v@.take(i - 1));
                i -= 1;
            }
            assert(last_index(v@, '.') == i - 1);
            if i > 1 {
                assert(v@.subrange(i as int, v@.len() as int) =~= v@.skip(i as int));
                Some(string_of(&v, i, v.len()))
            } else {
                None
            }
        },
    }
}

/// A name without what follows its last dot, unless it has none or has it in front.
pub fn stem(name: &str) -> (r: String)
    ensures
        r@ == if last_index(name@, '.') > 0 {
            name@.take(last_index(name@, '.'))
        } else {
            name@
        },
{
    let v = chars_of(name);
    let mut i: usize = v.len();
    assert(v@.take(i as int) =~= v@);
    while i > 0 && v[i - 1] != '.'
        invariant
            i <= v.len(),
            last_index(v@, '.') == last_index(v@.take(i as int), '.'),
        decreases i,
    {
        assert(v@.take(i as int).drop_last() =~= v@.take(i - 1));
        i -= 1;
    }
    assert(last_index(v@, '.') == i - 1);
    if i > 1 {
        assert(v@.subrange(0, i - 1) =~= v@.take(i - 1));
        string_of(&v, 0, i - 1)
    } else {
        name.to_string()
    }
}

/// A name in a directory.
pub fn join(dir: &str, name: &str) -> (r: String)
    ensures
        r@ == join_path(dir@, name@),
{
    let v = chars_of(dir);
    let n = chars_of(name);
    if n.len() > 0 && n[0] == '/' {
        return name.to_string();
    }
    let mut out = dir.to_string();
    if v.len() > 0 && v[v.len() - 1] != '/' {
        out.push('/');
    }
    out.append(name);
    out
}

/// Whether `v` begins with `front`.
fn begins_with(v: &Vec<char>, front: &Vec<char>) -> (r: bool)
    ensures
        r == front@.is_prefix_of(v@),
{
    if front.len() > v.len() {
        return false;
    }
    let mut i: usize = 0;
    while i < front.len()
        invariant
            i <= front@.len() <= v@.len(),
            forall|k: int| 0 <= k < i ==> front@[k] == v@[k],
        decreases front.len() - i,
    {
        if v[i] != front[i] {
            assert(front@[i as int] != v@.subrange(0, front@.len() as int)[i as int]);
            return false;
        }
        i += 1;
    }
    assert(front@ =~= v@.subrange(0, front@.len() as int));
    true
}

/// A path as seen from a directory that it leads into.
pub fn relative(root: &str, path: &str) -> (r: String)
    ensures
        r@ == relative_path(root@, path@),
{
    if same(path, root) {
        return String::new();
    }
    let v = chars_of(path);
    let mut front = chars_of(root);
    if front.len() > 0 && front[front.len() - 1] == '/' && begins_with(&v, &front) {
        assert(v@.subrange(front@.len() as int, v@.len() as int) =~= path@.skip(
            root@.len() as int,
        ));
        return string_of(&v, front.len(), v.len());
    }
    front.push('/');
    if begins_with(&v, &front) {
        assert(v@.subrange(front@.len() as int, v@.len() as int) =~= path@.skip(root@.len() as int + 1));
        string_of(&v, front.len(), v.len())
    } else {
        path.to_string()
    }
}

/// Why a path under the home directory could not be told.
#[derive(Clone, Copy, Debug, PartialEq, Eq, Structural)]
pub struct NoHome;

/// `dirs::home_dir` tells the user's home directory, which depends on the
/// environment. Nothing is stated of it. A path that is not text counts as none.
#[verifier::external_body]
pub(crate) fn home_dir() -> (r: Option<String>) {
    dirs::home_dir()?.into_os_string().into_string().ok()
}

/// A name in a directory under home.
pub fn under_home(home: &Option<String>, dir: &str, name: &str) -> (r: Result<String, NoHome>)
    ensures
        match r {
            Ok(p) => home matches Some(h) && p@ == join_path(join_path(h@, dir@), name@),
            Err(_) => home is None,
        },
{
    match home {
        Some(h) => Ok(join(join(h.as_str(), dir).as_str(), name)),
        None => Err(NoHome),
    }
}

/// The name of the directory that an agent keeps in the user's home directory: its
/// own name with a dot in front.
pub open spec fn agent_dir(agent: Seq<char>) -> Seq<char> {
    seq!['.'] + agent
}

/// The name of the directory that an agent keeps in the user's home directory.
pub fn agent_dir_name(agent: &str) -> (r: String)
    ensures
        r@ == agent_dir(agent@),
{
    let mut out = String::new();
    out.push('.');
    out.append(agent);
    assert(out@ =~= agent_dir(agent@));
    out
}

/// Whether an entry of a home directory is the directory of an agent: it has a dot in
/// front of its name, and there are transcripts in it.
pub open spec fn is_agent_entry(e: (String, bool)) -> bool {
    e.1 && e.0@.len() > 1 && e.0@[0] == '.'
}

/// The agent that a user has: the only one whose directory is among the entries of
/// the home directory, each with whether there are transcripts in it.
pub fn only_agent(entries: &Vec<(String, bool)>) -> (r: Option<String>)
    ensures
        match r {
            Some(name) => exists|e: (String, bool)|
                lists::kept(entries@, |e: (String, bool)| is_agent_entry(e)) == seq![e]
                    && #[trigger] agent_dir(name@) == e.0@,
            None => lists::kept(entries@, |e: (String, bool)| is_agent_entry(e)).len() != 1,
        },
{
    let mut found: Option<String> = None;
    let mut count: u8 = 0;
    let mut i: usize = 0;
    let ghost keep = |e: (String, bool)| is_agent_entry(e);
    assert(lists::kept(entries@.take(0), keep) =~= seq![]);
    while i < entries.len()
        invariant
            i <= entries.len(),
            keep == (|e: (String, bool)| is_agent_entry(e)),
            count <= 2,
            count < 2 ==> lists::kept(entries@.take(i as int), keep).len() == count,
            count == 2 ==> lists::kept(entries@.take(i as int), keep).len() >= 2,
            count == 1 ==> found is Some && agent_dir(found->0@) == lists::kept(
                entries@.take(i as int),
                keep,
            )[0].0@,
        decreases entries.len() - i,
    {
        let (name, used) = &entries[i];
        let v = chars_of(name.as_str());
        proof {
            assert(entries@.take(i + 1) =~= entries@.take(i as int).push(entries@[i as int]));
            entries@.take(i as int).lemma_filter_push(entries@[i as int], keep);
        }
        if *used && v.len() > 1 && v[0] == '.' {
            if count == 0 {
                let bare = string_of(&v, 1, v.len());
                assert(agent_dir(bare@) =~= name@);
                found = Some(bare);
                count = 1;
            } else {
                count = 2;
            }
        }
        i += 1;
    }
    assert(entries@.take(i as int) =~= entries@);
    if count == 1 {
        proof {
            let all = lists::kept(entries@, keep);
            assert(all =~= seq![all[0]]);
            assert(agent_dir(found->0@) == all[0].0@);
        }
        found
    } else {
        None
    }
}

/// Whether a text is a name that a path can have: not empty, without a `/`, and not one
/// of the two that stand for a directory and for its parent.
pub open spec fn is_name(s: Seq<char>) -> bool {
    s.len() > 0 && !s.contains('/') && s != seq!['.'] && s != seq!['.', '.']
}

/// The last name of a path is what follows its last `/`, whatever is before that, and a
/// `/` at the end of the path counts for nothing.
pub proof fn law_last_name(dir: Seq<char>, name: Seq<char>)
    requires
        is_name(name),
    ensures
        file_name_of(name) == Some(name),
        file_name_of(dir + seq!['/'] + name) == Some(name),
        file_name_of(dir + seq!['/'] + name + seq!['/']) == Some(name),
        parent_name_of(dir + seq!['/'] + name) == file_name_of(dir),
{
    let path = dir + seq!['/'] + name;
    let whole = path + seq!['/'];
    lemma_names_name(dir, name);
    lemma_names_name(Seq::empty(), name);
    assert(whole.drop_last() =~= path);
    assert(names(name) =~= seq![name]) by {
        assert(Seq::<Seq<char>>::empty().push(name) =~= seq![name]);
        assert(names(Seq::empty()) =~= seq![]) by {
            reveal(Seq::filter);
        }
    }
}

/// A name after a `/` is one more part of a path.
proof fn lemma_parts_name(dir: Seq<char>, name: Seq<char>)
    requires
        name.len() > 0,
        !name.contains('/'),
    ensures
        parts(dir + seq!['/'] + name) == parts(dir).push(name),
        parts(name) == seq![name],
    decreases name.len(),
{
    let path = dir + seq!['/'] + name;
    let c = name.last();
    assert(name.contains(c)) by {
        assert(name[name.len() - 1] == c);
    }
    assert(path.last() == c);
    if name.len() == 1 {
        assert(path.drop_last() =~= dir + seq!['/']);
        reveal_with_fuel(parts, 3);
        assert((dir + seq!['/']).drop_last() =~= dir);
        assert((dir + seq!['/']).last() == '/');
        assert(path[path.len() - 2] == '/');
        assert(seq![c] =~= name);
        assert(name.drop_last() =~= seq![]);
        assert(parts(name.drop_last()) =~= seq![]);
        assert(parts(name) =~= seq![name]);
    } else {
        let front = name.drop_last();
        assert forall|i: int| 0 <= i < front.len() implies front[i] != '/' by {
            assert(name.contains(name[i]));
        }
        lemma_parts_name(dir, front);
        assert(path.drop_last() =~= dir + seq!['/'] + front);
        assert(path[path.len() - 2] == name[name.len() - 2]);
        assert(name.contains(name[name.len() - 2]));
        assert(front.push(c) =~= name);
        assert(parts(dir).push(front).drop_last() =~= parts(dir));
        assert(seq![front].drop_last().push(name) =~= seq![name]);
    }
}

/// A name after a `/` is one more name of a path.
proof fn lemma_names_name(dir: Seq<char>, name: Seq<char>)
    requires
        name.len() > 0,
        !name.contains('/'),
        name != seq!['.'],
    ensures
        names(dir + seq!['/'] + name) == names(dir).push(name),
        names(name) == seq![name],
{
    let keep = |p: Seq<char>| p != seq!['.'];
    lemma_parts_name(dir, name);
    parts(dir).lemma_filter_push(name, keep);
    Seq::<Seq<char>>::empty().lemma_filter_push(name, keep);
    assert(Seq::<Seq<char>>::empty().push(name) =~= seq![name]);
    assert(Seq::<Seq<char>>::empty().filter(keep) =~= seq![]) by {
        reveal(Seq::filter);
    }
}

/// The extension of a path is what follows the last dot of its last name, unless nothing
/// is before that dot. Directories with dots in their names have no part in it.
pub proof fn law_extension(dir: Seq<char>, stem: Seq<char>, ext: Seq<char>)
    requires
        stem.len() > 0,
        !stem.contains('/'),
        !ext.contains('/'),
        !ext.contains('.'),
        is_name(stem + seq!['.'] + ext),
    ensures
        extension_of(stem + seq!['.'] + ext) == Some(ext),
        extension_of(dir + seq!['/'] + (stem + seq!['.'] + ext)) == Some(ext),
{
    let name = stem + seq!['.'] + ext;
    law_last_name(dir, name);
    lemma_last_dot(stem, ext);
    assert(name.skip(stem.len() as int + 1) =~= ext);
}

/// A name without a dot, or with one in front only, has no extension.
pub proof fn law_no_extension(dir: Seq<char>, name: Seq<char>)
    requires
        is_name(name),
        !name.drop_first().contains('.'),
    ensures
        extension_of(name) is None,
        extension_of(dir + seq!['/'] + name) is None,
{
    law_last_name(dir, name);
    let dot = last_index(name, '.');
    lemma_last_index_is(name, '.');
    if dot > 0 {
        assert(name.drop_first()[dot - 1] == '.');
    }
}

/// The last index of a character is one where it stands.
proof fn lemma_last_index_is(s: Seq<char>, c: char)
    ensures
        -1 <= last_index(s, c) < s.len(),
        last_index(s, c) >= 0 ==> s[last_index(s, c)] == c,
    decreases s.len(),
{
    if s.len() > 0 {
        lemma_last_index_is(s.drop_last(), c);
    }
}

/// The last dot is the one before a text without dots.
pub proof fn lemma_last_dot(stem: Seq<char>, ext: Seq<char>)
    requires
        !ext.contains('.'),
    ensures
        last_index(stem + seq!['.'] + ext, '.') == stem.len(),
    decreases ext.len(),
{
    let name = stem + seq!['.'] + ext;
    if ext.len() > 0 {
        let front = ext.drop_last();
        assert(ext.contains(ext[ext.len() - 1]));
        assert forall|i: int| 0 <= i < front.len() implies front[i] != '.' by {
            assert(ext.contains(ext[i]));
        }
        lemma_last_dot(stem, front);
        assert(name.drop_last() =~= stem + seq!['.'] + front);
        assert(name.last() == ext.last());
    } else {
        assert(name.last() == '.');
    }
}

/// What is joined to a directory is in it: its path as seen from there is what was
/// joined, and its last name is that of what was joined.
pub proof fn law_joined_path_is_inside(dir: Seq<char>, name: Seq<char>)
    requires
        is_name(name),
    ensures
        relative_path(dir, join_path(dir, name)) == name,
        file_name_of(join_path(dir, name)) == Some(name),
        dir.len() > 0 && dir.last() != '/' ==> join_path(dir, name) == dir + seq!['/'] + name,
        dir.len() > 0 && dir.last() == '/' ==> join_path(dir, name) == dir + name,
        dir.len() == 0 ==> join_path(dir, name) == name,
{
    let path = join_path(dir, name);
    assert(name.contains(name[0]));
    if dir.len() == 0 {
        assert(path =~= name);
        law_last_name(dir, name);
        assert(path[0] != '/');
        assert(dir.push('/')[0] == '/');
    } else if dir.last() == '/' {
        assert(path =~= dir.drop_last() + seq!['/'] + name);
        law_last_name(dir.drop_last(), name);
        assert(path.skip(dir.len() as int) =~= name);
        assert(path.subrange(0, dir.len() as int) =~= dir);
    } else {
        assert(path =~= dir + seq!['/'] + name);
        law_last_name(dir, name);
        assert(path.subrange(0, dir.len() as int + 1) =~= dir.push('/'));
        assert(path.skip(dir.len() as int + 1) =~= name);
    }
}

/// A path as seen from a directory that it leads into, however deep, is what follows the
/// directory's path and a `/`; from a directory that it does not lead into, it is the
/// whole path.
pub proof fn law_relative_path(root: Seq<char>, rest: Seq<char>, other: Seq<char>)
    requires
        root.len() > 0,
        root.last() != '/',
    ensures
        relative_path(root, root + seq!['/'] + rest) == rest,
        relative_path(root + seq!['/'], root + seq!['/'] + rest) == rest,
        !root.is_prefix_of(other) ==> relative_path(root, other) == other,
{
    let path = root + seq!['/'] + rest;
    assert(path.subrange(0, root.len() as int + 1) =~= root.push('/'));
    assert(root + seq!['/'] =~= root.push('/'));
    assert(path.skip(root.len() as int + 1) =~= rest);
    assert(path.len() != root.len());
    if path == root.push('/') {
        assert(rest =~= seq![]);
    }
    if root.push('/').is_prefix_of(other) {
        assert(other.subrange(0, root.len() as int) =~= root);
    }
}

/// A `/` at the end of a path, or a single dot as its last name, counts for nothing. A
/// path that leads to a parent directory, and one without names, has no last name, and so
/// no extension.
pub proof fn law_dots_are_no_names(path: Seq<char>)
    ensures
        names(path + seq!['/']) == names(path),
        names(path + seq!['/', '.']) == names(path),
        file_name_of(path + seq!['/', '.', '.']) is None,
        extension_of(path + seq!['/', '.', '.']) is None,
        file_name_of(Seq::empty()) is None,
        file_name_of(seq!['/']) is None,
        file_name_of(seq!['.']) is None,
        file_name_of(seq!['.', '.']) is None,
{
    let none = Seq::<char>::empty();
    let keep = |p: Seq<char>| p != seq!['.'];
    let end = path + seq!['/'];
    assert(end.drop_last() =~= path);
    assert(end.last() == '/');
    let dot = seq!['.'];
    assert(!dot.contains('/'));
    lemma_parts_name(path, dot);
    assert(path + seq!['/', '.'] =~= path + seq!['/'] + dot);
    parts(path).lemma_filter_push(dot, keep);
    let up = seq!['.', '.'];
    assert(!up.contains('/'));
    assert(up != dot) by {
        assert(up.len() == 2 && dot.len() == 1);
    }
    lemma_names_name(path, up);
    assert(path + seq!['/', '.', '.'] =~= path + seq!['/'] + up);
    assert(names(none) =~= seq![]) by {
        reveal(Seq::filter);
    }
    assert(seq!['/'] =~= none + seq!['/']);
    assert((none + seq!['/']).drop_last() =~= none);
    assert(parts(none + seq!['/']) == parts(none));
    Seq::<Seq<char>>::empty().lemma_filter_push(dot, keep);
    assert(Seq::<Seq<char>>::empty().push(dot) =~= seq![dot]);
    assert(Seq::<Seq<char>>::empty().filter(keep) =~= seq![]) by {
        reveal(Seq::filter);
    }
    assert(parts(dot) == seq![dot]);
    assert(names(dot).len() == 0);
}

/// A name that starts with a `/` is a path of its own, whatever it is joined to.
pub proof fn law_whole_paths_stay(dir: Seq<char>, rest: Seq<char>)
    ensures
        join_path(dir, seq!['/'] + rest) == seq!['/'] + rest,
{
}

/// The directory of an agent is its name with a dot in front, and an entry of a home
/// directory counts as one where it has such a name and there are transcripts in it.
pub proof fn law_agents_have_a_dot_in_front(agent: Seq<char>, e: (String, bool))
    ensures
        agent_dir(agent) == seq!['.'] + agent,
        e.0@ == seq!['.'] + agent && agent.len() > 0 ==> (is_agent_entry(e) <==> e.1),
        is_agent_entry(e) ==> e.1 && e.0@ == agent_dir(e.0@.drop_first()) && e.0@.len() > 1,
{
    if is_agent_entry(e) {
        assert(e.0@ =~= agent_dir(e.0@.drop_first()));
    }
}

} // verus!
