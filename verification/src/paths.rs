//! Which paths the index looks at.
//!
//! Paths are `/`-separated texts whose last component is an ordinary name,
//! as a directory walk or a file system watcher reports them.

use vstd::prelude::*;
use crate::text::{
    chars_of, ends_with, has_prefix, has_suffix, same_chars, slice_of, split, split_on, starts_with, strip_leading,
    stripped_leading, string_of,
};

verus! {

/// The last component of a path.
pub open spec fn file_name(path: Seq<char>) -> Seq<char> {
    split(path, '/').last()
}

/// The extension of a path, as `Path::extension`: what follows the last `.`
/// of the file name, unless the file name is `..`, has no `.`, or has its
/// only `.` in front.
pub open spec fn extension(path: Seq<char>) -> Option<Seq<char>> {
    let name = file_name(path);
    let pieces = split(name, '.');
    if name == ".."@ || pieces.len() < 2 || (pieces.len() == 2 && pieces[0].len() == 0) {
        None
    } else {
        Some(pieces.last())
    }
}

/// The directory part of a path, as `Path::parent`: everything before the
/// last `/` (the root `/` itself when that is the only one in front), and
/// the empty path for a bare name.
pub open spec fn parent(path: Seq<char>) -> Seq<char> {
    let pieces = split(path, '/');
    let name = pieces.last();
    let dir_len = path.len() - name.len() - 1;
    if pieces.len() < 2 {
        Seq::empty()
    } else if dir_len == 0 {
        "/"@
    } else {
        path.subrange(0, dir_len)
    }
}

/// The part of `path` below the directory `root`, without the separator
/// that follows `root`; the whole path when it does not start with `root`.
pub open spec fn relative_part(root: Seq<char>, path: Seq<char>) -> Seq<char> {
    if starts_with(path, root) { strip_leading(path.skip(root.len() as int), '/') } else { path }
}

/// The components of `path` below the directory `root`.
pub open spec fn components_below(root: Seq<char>, path: Seq<char>) -> Seq<Seq<char>> {
    split(relative_part(root, path), '/')
}

/// A component that a walk skips: a `vendor` directory, and, when `hidden`
/// counts too, a name starting with `.`.
pub open spec fn skipped_component(c: Seq<char>, hidden: bool) -> bool {
    c == "vendor"@ || (hidden && c.len() > 0 && c[0] == '.')
}

/// No component of `path` below `root` is skipped.
pub open spec fn none_skipped(root: Seq<char>, path: Seq<char>, hidden: bool) -> bool {
    forall|i: int| 0 <= i < components_below(root, path).len()
        ==> !skipped_component(#[trigger] components_below(root, path)[i], hidden)
}

/// A Go source file found under `root` whose symbols are indexed: no
/// component below `root` is a `vendor` directory or hidden (starts with
/// `.`), the extension is `go`, and it is not a test file.
pub open spec fn is_indexed_source(root: Seq<char>, path: Seq<char>) -> bool {
    &&& none_skipped(root, path, true)
    &&& extension(path) == Some("go"@)
    &&& !ends_with(file_name(path), "_test.go"@)
}

/// A `go.mod` file found under `root` outside any `vendor` directory below
/// `root`.
pub open spec fn is_module_manifest(root: Seq<char>, path: Seq<char>) -> bool {
    file_name(path) == "go.mod"@ && none_skipped(root, path, false)
}

proof fn lemma_split_nonempty(s: Seq<char>, sep: char)
    ensures
        split(s, sep).len() >= 1,
    decreases s.len(),
{
    if s.len() > 0 {
        lemma_split_nonempty(s.drop_last(), sep);
    }
}

/// The last piece of `split(s, sep)` is what follows the last `sep`.
proof fn lemma_split_last(s: Seq<char>, sep: char)
    ensures
        split(s, sep).len() >= 1,
        split(s, sep).last().len() <= s.len(),
        split(s, sep).last() == s.subrange(s.len() - split(s, sep).last().len(), s.len() as int),
        split(s, sep).len() >= 2 ==> split(s, sep).last().len() < s.len(),
        split(s, sep).len() >= 2 ==> s[s.len() - split(s, sep).last().len() - 1] == sep,
        split(s, sep).len() == 1 ==> split(s, sep).last() == s,
    decreases s.len(),
{
    lemma_split_nonempty(s, sep);
    if s.len() > 0 {
        lemma_split_last(s.drop_last(), sep);
        let rest = split(s.drop_last(), sep);
        if s.last() != sep {
            assert(split(s, sep).last() =~= s.subrange(s.len() - split(s, sep).last().len(), s.len() as int));
            if split(s, sep).len() >= 2 {
                let k = s.len() - split(s, sep).last().len() - 1;
                assert(s[k] == s.drop_last()[k]);
            }
        } else {
            assert(split(s, sep).last() =~= s.subrange(s.len() as int, s.len() as int));
        }
    } else {
        assert(split(s, sep).last() =~= s);
    }
}

/// The file name of a path.
pub fn file_name_of(path: &Vec<char>) -> (name: Vec<char>)
    ensures
        name@ == file_name(path@),
{
    let pieces = split_on(path, '/');
    proof { lemma_split_nonempty(path@, '/'); }
    let ghost views = pieces@.map_values(|p: Vec<char>| p@);
    assert(views.last() == pieces@[pieces@.len() - 1]@);
    let last = &pieces[pieces.len() - 1];
    slice_of(last, 0, last.len())
}

/// The extension of a path.
pub fn extension_of(path: &Vec<char>) -> (ext: Option<Vec<char>>)
    ensures
        match ext {
            Some(e) => extension(path@) == Some(e@),
            None => extension(path@).is_none(),
        },
{
    let name = file_name_of(path);
    if name.len() == 2 && name[0] == '.' && name[1] == '.' {
        proof { reveal_strlit(".."); }
        assert(name@ =~= ".."@);
        return None;
    }
    proof {
        reveal_strlit("..");
        if name@ == ".."@ {
            assert(name@[0] == '.' && name@[1] == '.');
        }
    }
    let pieces = split_on(&name, '.');
    let ghost views = pieces@.map_values(|p: Vec<char>| p@);
    if pieces.len() < 2 || (pieces.len() == 2 && pieces[0].len() == 0) {
        assert(views.len() == pieces@.len());
        if pieces.len() == 2 {
            assert(views[0] == pieces@[0]@);
        }
        None
    } else {
        assert(views.last() == pieces@[pieces@.len() - 1]@);
        let last = &pieces[pieces.len() - 1];
        Some(slice_of(last, 0, last.len()))
    }
}

/// The part of `path` below the directory `root`.
fn relative_of(root: &Vec<char>, path: &Vec<char>) -> (rel: Vec<char>)
    ensures
        rel@ == relative_part(root@, path@),
{
    if has_prefix(path, root) {
        let rest = slice_of(path, root.len(), path.len());
        assert(rest@ =~= path@.skip(root@.len() as int));
        stripped_leading(&rest, '/')
    } else {
        slice_of(path, 0, path.len())
    }
}

/// Whether a component is skipped.
fn is_skipped(c: &Vec<char>, hidden: bool) -> (skipped: bool)
    ensures
        skipped == skipped_component(c@, hidden),
{
    same_chars(c, &chars_of("vendor")) || (hidden && c.len() > 0 && c[0] == '.')
}

/// Whether no component of `path` below `root` is skipped.
fn none_skipped_below(root: &str, path: &str, hidden: bool) -> (ok: bool)
    ensures
        ok == none_skipped(root@, path@, hidden),
{
    let rel = relative_of(&chars_of(root), &chars_of(path));
    let comps = split_on(&rel, '/');
    let ghost views = comps@.map_values(|c: Vec<char>| c@);
    assert(views == components_below(root@, path@));
    let mut i: usize = 0;
    while i < comps.len()
        invariant
            i <= comps@.len(),
            views == comps@.map_values(|c: Vec<char>| c@),
            views == components_below(root@, path@),
            forall|k: int| 0 <= k < i ==> !skipped_component(#[trigger] views[k], hidden),
        decreases comps.len() - i,
    {
        if is_skipped(&comps[i], hidden) {
            assert(views[i as int] == comps@[i as int]@);
            assert(skipped_component(components_below(root@, path@)[i as int], hidden));
            return false;
        }
        assert(views[i as int] == comps@[i as int]@);
        i = i + 1;
    }
    true
}

/// Whether the symbols of the Go file at `path`, found under `root`, are
/// indexed.
pub fn is_indexed_go_file(root: &str, path: &str) -> (indexed: bool)
    ensures
        indexed == is_indexed_source(root@, path@),
{
    if !none_skipped_below(root, path, true) {
        return false;
    }
    let p = chars_of(path);
    let go = chars_of("go");
    match extension_of(&p) {
        Some(ext) => {
            if !same_chars(&ext, &go) {
                return false;
            }
        },
        None => {
            return false;
        },
    }
    let name = file_name_of(&p);
    !has_suffix(&name, &chars_of("_test.go"))
}

/// Whether `path`, found under `root`, is a `go.mod` file outside any
/// `vendor` directory below `root`.
pub fn is_go_mod_file(root: &str, path: &str) -> (manifest: bool)
    ensures
        manifest == is_module_manifest(root@, path@),
{
    let p = chars_of(path);
    let name = file_name_of(&p);
    let go_mod = chars_of("go.mod");
    let named = same_chars(&name, &go_mod);
    named && none_skipped_below(root, path, false)
}

/// The directory part of a path.
pub fn parent_of(path: &str) -> (dir: String)
    ensures
        dir@ == parent(path@),
{
    let p = chars_of(path);
    let pieces = split_on(&p, '/');
    proof { lemma_split_last(p@, '/'); }
    let ghost views = pieces@.map_values(|x: Vec<char>| x@);
    assert(views.last() == pieces@[pieces@.len() - 1]@);
    if pieces.len() < 2 {
        return string_of(Vec::<char>::new().as_slice());
    }
    let name_len = pieces[pieces.len() - 1].len();
    let dir_len = p.len() - name_len - 1;
    if dir_len == 0 {
        "/".to_owned()
    } else {
        string_of(slice_of(&p, 0, dir_len).as_slice())
    }
}

/// `dir` joined with the relative path `name`, as `Path::join`: a
/// separator is put between them unless `dir` is empty or already ends
/// with one.
pub open spec fn joined(dir: Seq<char>, name: Seq<char>) -> Seq<char> {
    if dir.len() == 0 {
        name
    } else if dir.last() == '/' {
        dir + name
    } else {
        dir + "/"@ + name
    }
}

/// `dir` joined with the relative path `name`.
pub fn join_path(dir: &str, name: &str) -> (path: String)
    ensures
        path@ == joined(dir@, name@),
{
    let d = chars_of(dir);
    let n = chars_of(name);
    if d.len() == 0 {
        string_of(n.as_slice())
    } else if d[d.len() - 1] == '/' {
        string_of(crate::text::concat(&d, &n).as_slice())
    } else {
        let head = crate::text::concat(&d, &chars_of("/"));
        string_of(crate::text::concat(&head, &n).as_slice())
    }
}

} // verus!
