//! Paths as text, with `/` between components.

use vstd::prelude::*;
use crate::text::{
    begins, cat2, cat3, chars_of, empty, opt_view, same, same_texts, split, split_on, starts_with,
    views, Text,
};

verus! {

/// `name` below `base`; an absolute `name` stands for itself.
pub open spec fn joined_path(base: Text, name: Text) -> Text {
    if name.len() > 0 && name[0] == '/' {
        name
    } else if base.len() == 0 {
        base + name
    } else if base.last() == '/' {
        base + name
    } else {
        base + "/"@ + name
    }
}

pub fn join_path(base: &str, name: &str) -> (r: String)
    ensures
        r@ == joined_path(base@, name@),
{
    let b = chars_of(base);
    let n = chars_of(name);
    if n.len() > 0 && n[0] == '/' {
        name.to_owned()
    } else if b.len() == 0 || b[b.len() - 1] == '/' {
        cat2(base, name)
    } else {
        cat3(base, "/", name)
    }
}

/// Whether the normalised absolute path `path` is `root` or stands below it.
pub open spec fn within(path: Text, root: Text) -> bool {
    path == root || (if ends_in_slash(root) {
        starts_with(path, root)
    } else {
        starts_with(path, root + "/"@)
    })
}

pub open spec fn ends_in_slash(s: Text) -> bool {
    s.len() > 0 && s.last() == '/'
}

pub fn is_within(path: &str, root: &str) -> (r: bool)
    ensures
        r == within(path@, root@),
{
    let v = chars_of(root);
    if same(path, root) {
        true
    } else if v.len() > 0 && v[v.len() - 1] == '/' {
        begins(path, root)
    } else {
        begins(path, cat2(root, "/").as_str())
    }
}

/// Whether a piece of a path names a step: it is neither empty nor `.`, unless the path begins
/// with that `.`.
pub open spec fn is_part(pieces: Seq<Text>, i: int) -> bool {
    pieces[i].len() > 0 && (pieces[i] != "."@ || i == 0)
}

pub open spec fn parts_of(pieces: Seq<Text>, n: int) -> Seq<Text>
    decreases n,
{
    if n <= 0 {
        Seq::empty()
    } else if is_part(pieces, n - 1) {
        parts_of(pieces, n - 1).push(pieces[n - 1])
    } else {
        parts_of(pieces, n - 1)
    }
}

/// The steps of a path, without repeated separators.
pub open spec fn path_parts(path: Text) -> Seq<Text> {
    parts_of(split_on(path, '/'), split_on(path, '/').len() as int)
}

pub open spec fn is_rooted(path: Text) -> bool {
    path.len() > 0 && path[0] == '/'
}

/// Two paths take the same steps.
pub open spec fn same_path(a: Text, b: Text) -> bool {
    is_rooted(a) == is_rooted(b) && path_parts(a) == path_parts(b)
}

fn parts(path: &str) -> (r: Vec<String>)
    ensures
        views(r@) == path_parts(path@),
{
    let pieces = split(path, '/');
    let ghost all = views(pieces@);
    let mut out: Vec<String> = Vec::new();
    assert(views(out@) =~= Seq::<Text>::empty());
    let mut i: usize = 0;
    while i < pieces.len()
        invariant
            i <= pieces@.len(),
            all == views(pieces@),
            views(out@) == parts_of(all, i as int),
        decreases pieces@.len() - i,
    {
        assert(all[i as int] == pieces@[i as int]@);
        let piece = pieces[i].as_str();
        if !empty(piece) && (!same(piece, ".") || i == 0) {
            let ghost before = out@;
            let ghost text = piece@;
            out.push(pieces[i].clone());
            assert(views(out@) =~= views(before).push(text));
        }
        i = i + 1;
    }
    out
}

fn rooted(path: &str) -> (r: bool)
    ensures
        r == is_rooted(path@),
{
    let v = chars_of(path);
    v.len() > 0 && v[0] == '/'
}

/// Whether two paths take the same steps.
pub fn paths_match(a: &str, b: &str) -> (r: bool)
    ensures
        r == same_path(a@, b@),
{
    if rooted(a) != rooted(b) {
        return false;
    }
    same_texts(&parts(a), &parts(b))
}

/// The last step of a path, where it names something.
pub open spec fn leaf_of(path: Text) -> Option<Text> {
    let all = path_parts(path);
    if all.len() == 0 || all.last() == ".."@ || all.last() == "."@ {
        None
    } else {
        Some(all.last())
    }
}

pub fn leaf(path: &str) -> (r: Option<String>)
    ensures
        opt_view(r) == leaf_of(path@),
{
    let all = parts(path);
    if all.len() == 0 {
        return None;
    }
    let last = &all[all.len() - 1];
    assert(views(all@).last() == last@);
    if same(last.as_str(), "..") || same(last.as_str(), ".") {
        None
    } else {
        Some(last.clone())
    }
}

} // verus!
