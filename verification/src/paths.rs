//! Unix paths as bytes: components, parents, joining and order.

use crate::order::{is_strict_total, lemma_lex_strict_total, lex_less, Relation};
use vstd::prelude::*;
use vstd::slice::{slice_subrange, slice_to_vec};

verus! {

/// The byte that separates components.
pub const SEPARATOR: u8 = 47;

/// The byte of a full stop.
pub const DOT: u8 = 46;

/// One component of a path.
pub enum Component {
    /// The leading separator of an absolute path.
    Root,
    /// A full stop at the beginning of a relative path.
    Current,
    /// Two full stops.
    Parent,
    /// A name.
    Name(Seq<u8>),
}

/// A component with the index at which it ends in its path.
pub struct Place {
    pub component: Component,
    pub end: int,
}

/// Index of the first separator of `path` at or after `start`, or the length
/// of `path` where there is none.
pub open spec fn piece_end(path: Seq<u8>, start: int) -> int
    decreases path.len() - start,
{
    if start >= path.len() || path[start] == SEPARATOR {
        start
    } else {
        piece_end(path, start + 1)
    }
}

/// What the bytes between two separators stand for: nothing where they are
/// empty or one full stop.
pub open spec fn piece(path: Seq<u8>, start: int, end: int) -> Seq<Place> {
    let bytes = path.subrange(start, end);
    if bytes.len() == 0 || bytes == seq![DOT] {
        seq![]
    } else if bytes == seq![DOT, DOT] {
        seq![Place { component: Component::Parent, end }]
    } else {
        seq![Place { component: Component::Name(bytes), end }]
    }
}

/// The components of `path` from `start` on, with nothing special about the
/// first of them.
pub open spec fn places_from(path: Seq<u8>, start: int) -> Seq<Place>
    decreases path.len() + 1 - start,
    when 0 <= start
    via places_from_decreases
{
    if start >= path.len() {
        seq![]
    } else {
        let end = piece_end(path, start);
        piece(path, start, end) + places_from(path, end + 1)
    }
}

#[via_fn]
proof fn places_from_decreases(path: Seq<u8>, start: int) {
    if start < path.len() {
        lemma_piece_end(path, start);
    }
}

proof fn lemma_piece_end(path: Seq<u8>, start: int)
    requires
        0 <= start <= path.len(),
    ensures
        start <= piece_end(path, start) <= path.len(),
        piece_end(path, start) < path.len() ==> path[piece_end(path, start)] == SEPARATOR,
        forall|i: int| start <= i < piece_end(path, start) ==> path[i] != SEPARATOR,
    decreases path.len() - start,
{
    if start < path.len() && path[start] != SEPARATOR {
        lemma_piece_end(path, start + 1);
    }
}

/// The components of a path, with their ends.
pub open spec fn places(path: Seq<u8>) -> Seq<Place> {
    if path.len() > 0 && path[0] == SEPARATOR {
        seq![Place { component: Component::Root, end: 1 }] + places_from(path, 1)
    } else if path.len() > 0 && path[0] == DOT && piece_end(path, 0) == 1 {
        seq![Place { component: Component::Current, end: 1 }] + places_from(path, 1)
    } else {
        places_from(path, 0)
    }
}

/// The components of a path.
pub open spec fn components(path: Seq<u8>) -> Seq<Component> {
    places(path).map_values(|p: Place| p.component)
}

/// A path without its last component: nothing for the empty path and for the
/// root, which have no parent.
pub open spec fn parent_of(path: Seq<u8>) -> Option<Seq<u8>> {
    let all = places(path);
    if all.len() == 0 || all.last().component is Root {
        None
    } else if all.len() == 1 {
        Some(seq![])
    } else {
        Some(path.take(all[all.len() - 2].end))
    }
}

/// The last component of a path where that is a name.
pub open spec fn file_name_of(path: Seq<u8>) -> Option<Seq<u8>> {
    let all = components(path);
    if all.len() == 0 {
        None
    } else {
        match all.last() {
            Component::Name(name) => Some(name),
            _ => None,
        }
    }
}

/// `name` below the directory `dir`, or `name` itself where it is absolute.
pub open spec fn below(dir: Seq<u8>, name: Seq<u8>) -> Seq<u8> {
    if name.len() > 0 && name[0] == SEPARATOR {
        name
    } else if dir.len() == 0 || dir.last() == SEPARATOR {
        dir + name
    } else {
        dir.push(SEPARATOR) + name
    }
}

/// What kind of component stands in a path.
#[derive(Clone, Copy, Debug, PartialEq, Eq, Structural)]
pub enum Kind {
    Root,
    Current,
    Parent,
    Name,
}

/// A component as the range of bytes that it takes up in its path.
#[derive(Clone, Copy, Debug)]
pub struct Span {
    pub kind: Kind,
    pub start: usize,
    pub end: usize,
}

impl Span {
    /// The range lies in `path`.
    pub open spec fn fits(self, path: Seq<u8>) -> bool {
        self.start <= self.end <= path.len()
    }

    /// The component that the range holds.
    pub open spec fn place(self, path: Seq<u8>) -> Place {
        let component = match self.kind {
            Kind::Root => Component::Root,
            Kind::Current => Component::Current,
            Kind::Parent => Component::Parent,
            Kind::Name => Component::Name(path.subrange(self.start as int, self.end as int)),
        };
        Place { component, end: self.end as int }
    }
}

/// `found` gives the components of `path`, each as a range that lies in it.
pub open spec fn spans_agree(found: Seq<Span>, path: Seq<u8>) -> bool {
    &&& forall|i: int| 0 <= i < found.len() ==> (#[trigger] found[i]).fits(path)
    &&& found.map_values(|s: Span| s.place(path)) == places(path)
}

/// The components of a path, as ranges of its bytes.
pub fn spans(path: &[u8]) -> (res: Vec<Span>)
    ensures
        spans_agree(res@, path@),
{
    let mut res: Vec<Span> = Vec::new();
    let ghost view = |s: Span| s.place(path@);
    let mut start: usize = 0;
    if path.len() > 0 {
        if path[0] == SEPARATOR {
            res.push(Span { kind: Kind::Root, start: 0, end: 1 });
            start = 1;
        } else if path[0] == DOT {
            proof {
                lemma_piece_end(path@, 1);
                assert(piece_end(path@, 0) == piece_end(path@, 1));
            }
            if path.len() == 1 || path[1] == SEPARATOR {
                res.push(Span { kind: Kind::Current, start: 0, end: 1 });
                start = 1;
            }
        }
    }
    assert(res@.map_values(view) + places_from(path@, start as int) =~= places(path@));
    while start < path.len()
        invariant
            view == (|s: Span| s.place(path@)),
            start <= path.len(),
            forall|i: int| 0 <= i < res.len() ==> (#[trigger] res@[i]).fits(path@),
            res@.map_values(view) + places_from(path@, start as int) == places(path@),
        decreases path.len() - start,
    {
        let mut end: usize = start;
        while end < path.len() && path[end] != SEPARATOR
            invariant
                start <= end <= path.len(),
                piece_end(path@, end as int) == piece_end(path@, start as int),
            decreases path.len() - end,
        {
            end = end + 1;
        }
        let ghost before = res@.map_values(view);
        let ghost bytes = path@.subrange(start as int, end as int);
        let empty = end == start || (end - start == 1 && path[start] == DOT);
        let up = end - start == 2 && path[start] == DOT && path[start + 1] == DOT;
        proof {
            lemma_piece_end(path@, start as int);
            if end - start == 1 {
                assert(bytes[0] == path@[start as int]);
                assert(path@[start as int] == DOT ==> bytes =~= seq![DOT]);
            }
            if end - start == 2 {
                assert(bytes[0] == path@[start as int] && bytes[1] == path@[start + 1]);
                assert(up ==> bytes =~= seq![DOT, DOT]);
                assert(bytes == seq![DOT, DOT] ==> bytes[0] == DOT && bytes[1] == DOT);
            }
        }
        if !empty {
            let kind = if up {
                Kind::Parent
            } else {
                Kind::Name
            };
            let span = Span { kind, start, end };
            res.push(span);
            assert(res@.map_values(view) =~= before.push(span.place(path@)));
            proof {
                assert(bytes.len() == end - start);
                assert(seq![DOT].len() == 1 && seq![DOT, DOT].len() == 2);
                assert(seq![DOT][0] == DOT);
                assert(seq![DOT, DOT][0] == DOT && seq![DOT, DOT][1] == DOT);
                assert(bytes != seq![DOT]) by {
                    if end - start == 1 {
                        assert(bytes[0] == path@[start as int]);
                    }
                }
                if up {
                    assert(bytes =~= seq![DOT, DOT]);
                } else {
                    assert(bytes != seq![DOT, DOT]) by {
                        if end - start == 2 {
                            assert(bytes[0] == path@[start as int]);
                            assert(bytes[1] == path@[start + 1]);
                        }
                    }
                }
            }
            assert(piece(path@, start as int, end as int) =~= seq![span.place(path@)]);
        } else {
            assert(piece(path@, start as int, end as int) =~= seq![]);
        }
        assert(res@.map_values(view) =~= before + piece(path@, start as int, end as int));
        assert(before + (piece(path@, start as int, end as int) + places_from(path@, end + 1))
            =~= res@.map_values(view) + places_from(path@, end + 1));
        if end < path.len() {
            start = end + 1;
        } else {
            assert(places_from(path@, end + 1) =~= places_from(path@, end as int));
            start = end;
        }
    }
    assert(res@.map_values(view) =~= places(path@));
    res
}

proof fn lemma_places_from_ends(path: Seq<u8>, start: int)
    requires
        0 <= start,
    ensures
        forall|i: int|
            0 <= i < places_from(path, start).len() ==> start < (#[trigger] places_from(
                path,
                start,
            )[i]).end <= path.len(),
        forall|i: int, j: int|
            0 <= i < j < places_from(path, start).len() ==> (#[trigger] places_from(
                path,
                start,
            )[i]).end < (#[trigger] places_from(path, start)[j]).end,
        forall|i: int|
            0 <= i < places_from(path, start).len() ==> !((#[trigger] places_from(
                path,
                start,
            )[i]).component is Root),
    decreases path.len() + 1 - start,
{
    if start < path.len() {
        lemma_piece_end(path, start);
        let end = piece_end(path, start);
        lemma_places_from_ends(path, end + 1);
        let head = piece(path, start, end);
        let tail = places_from(path, end + 1);
        let all = places_from(path, start);
        assert(all == head + tail);
        assert forall|i: int| 0 <= i < all.len() implies start < (#[trigger] all[i]).end
            <= path.len() && !(all[i].component is Root) by {
            if i >= head.len() {
                assert(all[i] == tail[i - head.len()]);
            }
        }
        assert forall|i: int, j: int| 0 <= i < j < all.len() implies (#[trigger] all[i]).end < (
        #[trigger] all[j]).end by {
            assert(all[j] == tail[j - head.len()]);
            if i >= head.len() {
                assert(all[i] == tail[i - head.len()]);
            }
        }
    }
}

/// The components of a path end one after the other within it.
pub proof fn lemma_places_ends(path: Seq<u8>)
    ensures
        forall|i: int|
            0 <= i < places(path).len() ==> 0 < (#[trigger] places(path)[i]).end <= path.len(),
        forall|i: int, j: int|
            0 <= i < j < places(path).len() ==> (#[trigger] places(path)[i]).end < (
            #[trigger] places(path)[j]).end,
{
    let all = places(path);
    lemma_places_from_ends(path, 0);
    lemma_places_from_ends(path, 1);
    let tail = places_from(path, 1);
    if all.len() > 0 && all != places_from(path, 0) {
        assert forall|i: int| 0 < i < all.len() implies #[trigger] all[i] == tail[i - 1] by {}
    }
}

/// A parent is shorter than its path.
pub proof fn lemma_parent_shorter(path: Seq<u8>)
    ensures
        parent_of(path) matches Some(parent) ==> parent.len() < path.len(),
{
    lemma_places_ends(path);
    let all = places(path);
    if all.len() > 0 {
        assert(all[all.len() - 1].end <= path.len());
        if all.len() > 1 {
            assert(all[all.len() - 2].end < all[all.len() - 1].end);
        }
    }
}

proof fn lemma_piece_end_unique(path: Seq<u8>, start: int, end: int)
    requires
        0 <= start <= end <= path.len(),
        end < path.len() ==> path[end] == SEPARATOR,
        forall|i: int| start <= i < end ==> path[i] != SEPARATOR,
    ensures
        piece_end(path, start) == end,
{
    lemma_piece_end(path, start);
    if piece_end(path, start) < end {
        assert(path[piece_end(path, start)] != SEPARATOR);
    }
}

proof fn lemma_piece_prefix(path: Seq<u8>, start: int, upto: int)
    requires
        0 <= start <= piece_end(path, start) <= upto <= path.len(),
    ensures
        piece_end(path.take(upto), start) == piece_end(path, start),
        piece(path.take(upto), start, piece_end(path, start)) == piece(
            path,
            start,
            piece_end(path, start),
        ),
{
    lemma_piece_end(path, start);
    lemma_piece_end_unique(path.take(upto), start, piece_end(path, start));
    assert(path.take(upto).subrange(start, piece_end(path, start)) =~= path.subrange(
        start,
        piece_end(path, start),
    ));
}

proof fn lemma_places_from_prefix(path: Seq<u8>, start: int, k: int)
    requires
        0 <= start,
        0 <= k < places_from(path, start).len(),
    ensures
        places_from(path.take(places_from(path, start)[k].end), start) == places_from(
            path,
            start,
        ).take(k + 1),
    decreases path.len() + 1 - start,
{
    let all = places_from(path, start);
    let upto = all[k].end;
    lemma_places_from_ends(path, start);
    lemma_piece_end(path, start);
    let end = piece_end(path, start);
    let head = piece(path, start, end);
    let tail = places_from(path, end + 1);
    lemma_places_from_ends(path, end + 1);
    assert(all == head + tail);
    if k < head.len() {
        assert(upto == end);
        lemma_piece_prefix(path, start, upto);
        assert(places_from(path.take(upto), end + 1) =~= Seq::<Place>::empty());
        assert(all.take(k + 1) =~= head);
        assert(places_from(path.take(upto), start) =~= head);
    } else {
        assert(tail[k - head.len()] == all[k]);
        lemma_piece_prefix(path, start, upto);
        lemma_places_from_prefix(path, end + 1, k - head.len());
        assert(all.take(k + 1) =~= head + tail.take(k - head.len() + 1));
    }
}

/// The path up to the end of a component has the components up to that one.
pub proof fn lemma_places_prefix(path: Seq<u8>, k: int)
    requires
        0 <= k < places(path).len(),
    ensures
        places(path.take(places(path)[k].end)) == places(path).take(k + 1),
{
    let all = places(path);
    let upto = all[k].end;
    let prefix = path.take(upto);
    lemma_places_ends(path);
    assert(0 < upto <= path.len());
    assert(prefix[0] == path[0]);
    lemma_piece_end(path, 0);
    if path[0] == SEPARATOR || (path[0] == DOT && piece_end(path, 0) == 1) {
        let tail = places_from(path, 1);
        assert(all =~= seq![all[0]] + tail);
        if path[0] != SEPARATOR {
            lemma_piece_prefix(path, 0, upto);
        }
        if k == 0 {
            assert(places_from(prefix, 1) =~= Seq::<Place>::empty());
            assert(places(prefix) =~= all.take(1));
        } else {
            assert(tail[k - 1] == all[k]);
            lemma_places_from_prefix(path, 1, k - 1);
            assert(all.take(k + 1) =~= seq![all[0]] + tail.take(k));
        }
    } else {
        lemma_places_from_prefix(path, 0, k);
        let end = piece_end(path, 0);
        if path[0] == DOT {
            assert(piece_end(path, 1) == end);
            assert(path.subrange(0, end).len() == end);
            assert(end != 1 && end >= 1);
            assert(path.subrange(0, end) != seq![DOT]) by {
                assert(seq![DOT].len() == 1);
            }
            let head = piece(path, 0, end);
            assert(head.len() == 1 && head[0].end == end);
            assert(all == head + places_from(path, end + 1));
            assert(all[0] == head[0]);
            assert(upto >= end) by {
                if k > 0 {
                    assert(all[0].end < all[k].end);
                }
            }
            lemma_piece_prefix(path, 0, upto);
        }
    }
}

/// The components of a path's parent are those of the path but the last.
pub proof fn lemma_parent_components(path: Seq<u8>)
    ensures
        parent_of(path) matches Some(parent) ==> components(parent) == components(path).drop_last(),
{
    let all = places(path);
    if parent_of(path) is Some {
        if all.len() == 1 {
            assert(components(seq![]) =~= components(path).drop_last());
        } else {
            lemma_places_prefix(path, all.len() - 2);
            assert(components(parent_of(path)->0) =~= components(path).drop_last());
        }
    }
}

/// Only the first component of a path can be the root.
pub proof fn lemma_root_first(path: Seq<u8>)
    ensures
        forall|i: int| 0 < i < components(path).len() ==> !(#[trigger] components(path)[i] is Root),
{
    lemma_places_from_ends(path, 0);
    lemma_places_from_ends(path, 1);
    let all = places(path);
    let tail = places_from(path, 1);
    assert forall|i: int| 0 < i < components(path).len() implies !(#[trigger] components(path)[i]
        is Root) by {
        assert(components(path)[i] == all[i].component);
        if all != places_from(path, 0) {
            assert(all[i] == tail[i - 1]);
        }
    }
}

/// A path without its last component, as `Path::parent` gives it.
pub fn parent(path: &[u8]) -> (res: Option<Vec<u8>>)
    ensures
        match res {
            Some(parent) => parent_of(path@) == Some(parent@),
            None => parent_of(path@) is None,
        },
{
    let all = spans(path);
    let ghost view = |s: Span| s.place(path@);
    assert(all@.map_values(view).len() == all.len());
    if all.len() == 0 {
        return None;
    }
    let last = all[all.len() - 1];
    assert(all@.map_values(view).last() == last.place(path@));
    match last.kind {
        Kind::Root => None,
        _ => {
            if all.len() == 1 {
                let empty: Vec<u8> = Vec::new();
                assert(empty@ =~= seq![]);
                Some(empty)
            } else {
                let before = all[all.len() - 2];
                assert(all@[all.len() - 2].fits(path@));
                assert(all@.map_values(view)[all.len() - 2] == before.place(path@));
                let taken = slice_subrange(path, 0, before.end);
                assert(taken@ =~= path@.take(before.end as int));
                Some(slice_to_vec(taken))
            }
        },
    }
}

/// The last component of a path where that is a name, as `Path::file_name`
/// gives it.
pub fn file_name(path: &[u8]) -> (res: Option<Vec<u8>>)
    ensures
        match res {
            Some(name) => file_name_of(path@) == Some(name@),
            None => file_name_of(path@) is None,
        },
{
    let all = spans(path);
    let ghost view = |s: Span| s.place(path@);
    assert(components(path@).len() == all@.map_values(view).len());
    if all.len() == 0 {
        return None;
    }
    let last = all[all.len() - 1];
    assert(components(path@).last() == all@.map_values(view).last().component);
    match last.kind {
        Kind::Name => {
            assert(all@[all.len() - 1].fits(path@));
            Some(slice_to_vec(slice_subrange(path, last.start, last.end)))
        },
        _ => None,
    }
}

/// `name` below the directory `dir`, as `Path::join` gives it.
pub fn join(dir: &[u8], name: &[u8]) -> (res: Vec<u8>)
    ensures
        res@ == below(dir@, name@),
{
    if name.len() > 0 && name[0] == SEPARATOR {
        return slice_to_vec(name);
    }
    let mut res = slice_to_vec(dir);
    if dir.len() > 0 && dir[dir.len() - 1] != SEPARATOR {
        res.push(SEPARATOR);
    }
    let mut rest = slice_to_vec(name);
    res.append(&mut rest);
    res
}

/// The path is the directory `dir` or leads into it.
pub open spec fn lies_in(path: Seq<u8>, dir: Seq<u8>) -> bool {
    components(dir).is_prefix_of(components(path))
}

/// One of the paths has the same components as `path`.
pub open spec fn has_path(paths: Seq<Seq<u8>>, path: Seq<u8>) -> bool {
    exists|i: int| 0 <= i < paths.len() && components(#[trigger] paths[i]) == components(path)
}

/// The contents of paths.
pub open spec fn path_views(paths: Seq<Vec<u8>>) -> Seq<Seq<u8>> {
    paths.map_values(|p: Vec<u8>| p@)
}

/// Whether one of the paths has the same components as `path`.
pub fn is_among(paths: &Vec<Vec<u8>>, path: &[u8]) -> (res: bool)
    ensures
        res == has_path(path_views(paths@), path@),
{
    let ghost all = path_views(paths@);
    for i in 0..paths.len()
        invariant
            all == path_views(paths@),
            forall|j: int| 0 <= j < i ==> components(#[trigger] all[j]) != components(path@),
    {
        if compare_paths(paths[i].as_slice(), path) == Relation::Same {
            assert(components(all[i as int]) == components(path@));
            return true;
        }
        assert(all[i as int] == paths@[i as int]@);
    }
    false
}

/// How many components the directory `dir` has, where the path lies in it, as
/// `Path::starts_with` tells.
pub fn depth_above(path: &[u8], dir: &[u8]) -> (res: Option<usize>)
    ensures
        res is Some <==> lies_in(path@, dir@),
        res matches Some(depth) ==> depth == components(dir@).len(),
{
    let left = spans(path);
    let right = spans(dir);
    let ghost x = components(path@);
    let ghost y = components(dir@);
    proof {
        assert(left@.map_values(|s: Span| s.place(path@)).len() == x.len());
        assert(right@.map_values(|s: Span| s.place(dir@)).len() == y.len());
        assert forall|j: int| 0 <= j < left.len() implies #[trigger] x[j] == left@[j].place(
            path@,
        ).component by {
            assert(left@.map_values(|s: Span| s.place(path@))[j] == left@[j].place(path@));
        }
        assert forall|j: int| 0 <= j < right.len() implies #[trigger] y[j] == right@[j].place(
            dir@,
        ).component by {
            assert(right@.map_values(|s: Span| s.place(dir@))[j] == right@[j].place(dir@));
        }
    }
    if left.len() < right.len() {
        return None;
    }
    for i in 0..right.len()
        invariant
            x == components(path@),
            y == components(dir@),
            left.len() == x.len(),
            right.len() == y.len(),
            right.len() <= left.len(),
            forall|j: int| 0 <= j < left.len() ==> (#[trigger] left@[j]).fits(path@),
            forall|j: int| 0 <= j < right.len() ==> (#[trigger] right@[j]).fits(dir@),
            forall|j: int|
                0 <= j < left.len() ==> #[trigger] x[j] == left@[j].place(path@).component,
            forall|j: int|
                0 <= j < right.len() ==> #[trigger] y[j] == right@[j].place(dir@).component,
            forall|j: int| 0 <= j < i ==> x[j] == y[j],
    {
        let found = compare_components(path, left[i], dir, right[i]);
        assert(x[i as int] == left@[i as int].place(path@).component);
        assert(y[i as int] == right@[i as int].place(dir@).component);
        if found != Relation::Same {
            assert(x[i as int] != y[i as int]);
            assert(lies_in(path@, dir@) ==> y == x.subrange(0, y.len() as int));
            assert(lies_in(path@, dir@) ==> x.subrange(0, y.len() as int)[i as int] == y[i as int]);
            return None;
        }
    }
    assert(y =~= x.subrange(0, y.len() as int));
    Some(right.len())
}

/// The file name of `path` ends in a full stop and `extension`, with something
/// before the full stop.
pub open spec fn has_extension(path: Seq<u8>, extension: Seq<u8>) -> bool {
    &&& file_name_of(path) matches Some(name)
    &&& name.len() > extension.len() + 1
    &&& name[name.len() - extension.len() - 1] == DOT
    &&& name.skip(name.len() - extension.len()) == extension
}

/// The bytes of the extension of Rust source files.
pub open spec fn rust_extension() -> Seq<u8> {
    seq![114u8, 115u8]
}

/// Whether `Path::extension` of a path is that of Rust source files.
pub fn is_rust_source(path: &[u8]) -> (res: bool)
    ensures
        res == has_extension(path@, rust_extension()),
{
    match file_name(path) {
        Some(name) => {
            let n = name.len();
            let res = n > 3 && name[n - 3] == DOT && name[n - 2] == 114 && name[n - 1] == 115;
            proof {
                if n > 3 {
                    let tail = name@.skip(n - 2);
                    assert(tail[0] == name@[n - 2] && tail[1] == name@[n - 1]);
                    if res {
                        assert(tail =~= rust_extension());
                    }
                }
            }
            res
        },
        None => false,
    }
}

/// Bytes are ordered by their values.
pub open spec fn bytes_less(a: Seq<u8>, b: Seq<u8>) -> bool {
    lex_less(|x: u8, y: u8| x < y, a, b)
}

/// The place of a kind of component among the others.
pub open spec fn rank(c: Component) -> int {
    match c {
        Component::Root => 0,
        Component::Current => 1,
        Component::Parent => 2,
        Component::Name(_) => 3,
    }
}

/// Components are ordered by their kind, and names by their bytes.
pub open spec fn component_less(a: Component, b: Component) -> bool {
    match (a, b) {
        (Component::Name(x), Component::Name(y)) => bytes_less(x, y),
        _ => rank(a) < rank(b),
    }
}

/// Paths are ordered component by component.
pub open spec fn path_less(a: Seq<u8>, b: Seq<u8>) -> bool {
    lex_less(|x: Component, y: Component| component_less(x, y), components(a), components(b))
}

/// The order of components is a strict total order.
pub proof fn lemma_component_order()
    ensures
        is_strict_total(|x: Component, y: Component| component_less(x, y)),
{
    let byte = |x: u8, y: u8| x < y;
    lemma_lex_strict_total(byte);
    let lex = |a: Seq<u8>, b: Seq<u8>| lex_less(byte, a, b);
    let less = |x: Component, y: Component| component_less(x, y);
    assert forall|a: Component| !#[trigger] less(a, a) by {
        if let Component::Name(x) = a {
            assert(!lex(x, x));
        }
    }
    assert forall|a: Component, b: Component, c: Component| #[trigger] less(a, b) && #[trigger] less(
        b,
        c,
    ) implies less(a, c) by {
        match (a, b, c) {
            (Component::Name(x), Component::Name(y), Component::Name(z)) => {
                assert(lex(x, y) && lex(y, z));
                assert(lex(x, z));
            },
            _ => {},
        }
    }
    assert forall|a: Component, b: Component| #[trigger] less(a, b) || a == b || less(b, a) by {
        match (a, b) {
            (Component::Name(x), Component::Name(y)) => {
                assert(lex(x, y) || x == y || lex(y, x));
            },
            _ => {},
        }
    }
}

/// The order of component sequences, by which paths are ordered, is a strict
/// total order.
pub proof fn lemma_path_order()
    ensures
        is_strict_total(
            |a: Seq<Component>, b: Seq<Component>|
                lex_less(|x: Component, y: Component| component_less(x, y), a, b),
        ),
{
    lemma_component_order();
    lemma_lex_strict_total(|x: Component, y: Component| component_less(x, y));
}

fn compare_bytes(a: &[u8], b: &[u8]) -> (res: Relation)
    ensures
        res == Relation::Before <==> bytes_less(a@, b@),
        res == Relation::Same <==> a@ == b@,
        res == Relation::After <==> bytes_less(b@, a@),
{
    let ghost less = |x: u8, y: u8| x < y;
    let mut i: usize = 0;
    proof {
        lemma_lex_strict_total(less);
        assert(!(|x: Seq<u8>, y: Seq<u8>| lex_less(less, x, y))(a@, a@));
        assert(a@.skip(0) == a@);
        assert(b@.skip(0) == b@);
    }
    while i < a.len() && i < b.len() && a[i] == b[i]
        invariant
            less == (|x: u8, y: u8| x < y),
            i <= a.len(),
            i <= b.len(),
            a@.take(i as int) == b@.take(i as int),
            bytes_less(a@, b@) == lex_less(less, a@.skip(i as int), b@.skip(i as int)),
            bytes_less(b@, a@) == lex_less(less, b@.skip(i as int), a@.skip(i as int)),
        decreases a.len() - i,
    {
        assert(a@.skip(i as int).skip(1) == a@.skip(i + 1));
        assert(b@.skip(i as int).skip(1) == b@.skip(i + 1));
        assert(a@.take(i + 1) == a@.take(i as int).push(a@[i as int]));
        assert(b@.take(i + 1) == b@.take(i as int).push(b@[i as int]));
        i = i + 1;
    }
    if i < a.len() && i < b.len() {
        if a[i] < b[i] {
            Relation::Before
        } else {
            Relation::After
        }
    } else if i < b.len() {
        Relation::Before
    } else if i < a.len() {
        Relation::After
    } else {
        assert(a@.take(i as int) == a@);
        assert(b@.take(i as int) == b@);
        Relation::Same
    }
}

spec fn kind_rank(kind: Kind) -> int {
    match kind {
        Kind::Root => 0,
        Kind::Current => 1,
        Kind::Parent => 2,
        Kind::Name => 3,
    }
}

fn rank_of(kind: Kind) -> (res: u8)
    ensures
        res == kind_rank(kind),
{
    match kind {
        Kind::Root => 0,
        Kind::Current => 1,
        Kind::Parent => 2,
        Kind::Name => 3,
    }
}

fn compare_components(a: &[u8], left: Span, b: &[u8], right: Span) -> (res: Relation)
    requires
        left.fits(a@),
        right.fits(b@),
    ensures
        res == Relation::Before <==> component_less(
            left.place(a@).component,
            right.place(b@).component,
        ),
        res == Relation::Same <==> left.place(a@).component == right.place(b@).component,
        res == Relation::After <==> component_less(
            right.place(b@).component,
            left.place(a@).component,
        ),
{
    let l = rank_of(left.kind);
    let r = rank_of(right.kind);
    if l < r {
        Relation::Before
    } else if r < l {
        Relation::After
    } else if l == 3 {
        compare_bytes(
            slice_subrange(a, left.start, left.end),
            slice_subrange(b, right.start, right.end),
        )
    } else {
        Relation::Same
    }
}

/// Compares two paths component by component, as `Path` is ordered.
pub fn compare_paths(a: &[u8], b: &[u8]) -> (res: Relation)
    ensures
        res == Relation::Before <==> path_less(a@, b@),
        res == Relation::Same <==> components(a@) == components(b@),
        res == Relation::After <==> path_less(b@, a@),
{
    let left = spans(a);
    let right = spans(b);
    let ghost less = |x: Component, y: Component| component_less(x, y);
    let ghost x = components(a@);
    let ghost y = components(b@);
    proof {
        lemma_component_order();
        lemma_path_order();
        assert(!(|p: Seq<Component>, q: Seq<Component>| lex_less(less, p, q))(x, x));
        assert(left@.map_values(|s: Span| s.place(a@)).len() == x.len());
        assert(right@.map_values(|s: Span| s.place(b@)).len() == y.len());
        assert forall|j: int| 0 <= j < left.len() implies #[trigger] x[j] == left@[j].place(
            a@,
        ).component by {
            assert(left@.map_values(|s: Span| s.place(a@))[j] == left@[j].place(a@));
        }
        assert forall|j: int| 0 <= j < right.len() implies #[trigger] y[j] == right@[j].place(
            b@,
        ).component by {
            assert(right@.map_values(|s: Span| s.place(b@))[j] == right@[j].place(b@));
        }
        assert(x.skip(0) == x);
        assert(y.skip(0) == y);
    }
    let mut i: usize = 0;
    while i < left.len() && i < right.len()
        invariant
            less == (|x: Component, y: Component| component_less(x, y)),
            is_strict_total(less),
            x == components(a@),
            y == components(b@),
            left.len() == x.len(),
            right.len() == y.len(),
            forall|j: int| 0 <= j < left.len() ==> (#[trigger] left@[j]).fits(a@),
            forall|j: int| 0 <= j < right.len() ==> (#[trigger] right@[j]).fits(b@),
            forall|j: int|
                0 <= j < left.len() ==> #[trigger] x[j] == left@[j].place(a@).component,
            forall|j: int|
                0 <= j < right.len() ==> #[trigger] y[j] == right@[j].place(b@).component,
            i <= left.len(),
            i <= right.len(),
            x.take(i as int) == y.take(i as int),
            path_less(a@, b@) == lex_less(less, x.skip(i as int), y.skip(i as int)),
            path_less(b@, a@) == lex_less(less, y.skip(i as int), x.skip(i as int)),
        decreases left.len() - i,
    {
        let found = compare_components(a, left[i], b, right[i]);
        proof {
            assert(x.skip(i as int)[0] == x[i as int]);
            assert(y.skip(i as int)[0] == y[i as int]);
            assert(x.skip(i as int).skip(1) == x.skip(i + 1));
            assert(y.skip(i as int).skip(1) == y.skip(i + 1));
            assert(x.take(i + 1) == x.take(i as int).push(x[i as int]));
            assert(y.take(i + 1) == y.take(i as int).push(y[i as int]));
            assert(!less(x[i as int], x[i as int]));
            assert(!(less(x[i as int], y[i as int]) && less(y[i as int], x[i as int])));
        }
        match found {
            Relation::Same => {
                i = i + 1;
            },
            _ => {
                return found;
            },
        }
    }
    if i < right.len() {
        Relation::Before
    } else if i < left.len() {
        Relation::After
    } else {
        assert(x.take(i as int) == x);
        assert(y.take(i as int) == y);
        Relation::Same
    }
}

/// The index of the first candidate that exists.
pub open spec fn first_of(exist: Seq<bool>) -> Option<int>
    decreases exist.len(),
{
    if exist.len() == 0 {
        None
    } else if exist[0] {
        Some(0)
    } else {
        match first_of(exist.skip(1)) {
            Some(i) => Some(i + 1),
            None => None,
        }
    }
}

/// [`first_of`] is an index of something that exists, with nothing before it
/// that does.
pub proof fn lemma_first_of(exist: Seq<bool>)
    ensures
        match first_of(exist) {
            Some(i) => 0 <= i < exist.len() && exist[i] && forall|j: int|
                0 <= j < i ==> !#[trigger] exist[j],
            None => forall|j: int| 0 <= j < exist.len() ==> !#[trigger] exist[j],
        },
    decreases exist.len(),
{
    if exist.len() > 0 && !exist[0] {
        let rest = exist.skip(1);
        lemma_first_of(rest);
        let upto = match first_of(exist) {
            Some(i) => i,
            None => exist.len() as int,
        };
        assert forall|j: int| 0 <= j < upto implies !#[trigger] exist[j] by {
            if j > 0 {
                assert(!rest[j - 1]);
            }
        }
    }
}

/// Which of several candidates is the first that exists.
pub fn first_existing(exist: &Vec<bool>) -> (res: Option<usize>)
    ensures
        match res {
            Some(i) => first_of(exist@) == Some(i as int),
            None => first_of(exist@) is None,
        },
{
    assert(exist@.skip(0) =~= exist@);
    for i in 0..exist.len()
        invariant
            match first_of(exist@.skip(i as int)) {
                Some(k) => first_of(exist@) == Some(i + k),
                None => first_of(exist@) is None,
            },
    {
        assert(exist@.skip(i as int)[0] == exist@[i as int]);
        assert(exist@.skip(i as int).skip(1) =~= exist@.skip(i + 1));
        if exist[i] {
            return Some(i);
        }
    }
    assert(exist@.skip(exist@.len() as int).len() == 0);
    None
}

proof fn lemma_places_from_piece(head: Seq<u8>, tail: Seq<u8>, start: int)
    requires
        0 <= start <= head.len(),
        start < head.len() ==> head.last() == SEPARATOR,
        !tail.contains(SEPARATOR),
    ensures
        places_from(head + tail, start) == places_from(head, start) + piece(
            head + tail,
            head.len() as int,
            (head + tail).len() as int,
        ),
    decreases head.len() - start,
{
    let path = head + tail;
    let n = head.len() as int;
    if start == n {
        assert forall|i: int| n <= i < path.len() implies path[i] != SEPARATOR by {
            assert(path[i] == tail[i - n]);
            assert(tail.contains(tail[i - n]));
        }
        lemma_piece_end_unique(path, n, path.len() as int);
        assert(places_from(head, start) =~= seq![]);
        if n == path.len() {
            assert(path.subrange(n, n).len() == 0);
        }
        assert(places_from(path, (path.len() + 1) as int) =~= seq![]);
        assert(places_from(path, start) =~= places_from(head, start) + piece(
            path,
            n,
            path.len() as int,
        ));
    } else {
        lemma_piece_end(head, start);
        let end = piece_end(head, start);
        assert(end < n) by {
            if end == n {
                assert(head[n - 1] != SEPARATOR);
            }
        }
        assert(path[end] == head[end]);
        assert forall|i: int| start <= i < end implies path[i] != SEPARATOR by {
            assert(path[i] == head[i]);
        }
        lemma_piece_end_unique(path, start, end);
        assert(path.subrange(start, end) =~= head.subrange(start, end));
        lemma_places_from_piece(head, tail, end + 1);
        assert(places_from(path, start) =~= places_from(head, start) + piece(
            path,
            n,
            path.len() as int,
        ));
    }
}

proof fn lemma_places_from_separator(path: Seq<u8>, start: int)
    requires
        0 <= start <= path.len(),
    ensures
        places_from(path.push(SEPARATOR), start) == places_from(path, start),
    decreases path.len() - start,
{
    let longer = path.push(SEPARATOR);
    lemma_piece_end(path, start);
    let end = piece_end(path, start);
    assert(longer[end] == SEPARATOR);
    assert forall|i: int| start <= i < end implies longer[i] != SEPARATOR by {
        assert(longer[i] == path[i]);
    }
    lemma_piece_end_unique(longer, start, end);
    assert(longer.subrange(start, end) =~= path.subrange(start, end));
    if end < path.len() {
        lemma_places_from_separator(path, end + 1);
    } else {
        assert(places_from(longer, end + 1) =~= seq![]);
        assert(places_from(path, end + 1) =~= seq![]);
        if start == path.len() {
            assert(path.subrange(start, end).len() == 0);
            assert(piece(longer, start, end) =~= seq![]);
        }
    }
}

/// The empty path has no components, and a single separator is the root. Any
/// other separator at the end of a path adds nothing.
pub proof fn lemma_components_separator(path: Seq<u8>)
    ensures
        components(seq![]).len() == 0,
        components(seq![47u8]) == seq![Component::Root],
        path.len() > 0 ==> components(path.push(47)) == components(path),
{
    assert(places_from(seq![47u8], 1) =~= seq![]);
    assert(components(seq![47u8]) =~= seq![Component::Root]);
    if path.len() > 0 {
        let longer = path.push(47);
        assert(longer[0] == path[0]);
        lemma_places_from_separator(path, 0);
        lemma_places_from_separator(path, 1);
        lemma_piece_end(path, 0);
        let end = piece_end(path, 0);
        assert(longer[end] == SEPARATOR);
        assert forall|i: int| 0 <= i < end implies longer[i] != SEPARATOR by {
            assert(longer[i] == path[i]);
        }
        lemma_piece_end_unique(longer, 0, end);
        assert(places(longer) == places(path));
    }
}

/// What follows the last separator of a path is its last component. Nothing and
/// a single full stop add none, but at the beginning a full stop is one; two
/// full stops lead to the parent.
pub proof fn lemma_components_piece(head: Seq<u8>, tail: Seq<u8>)
    requires
        head.len() == 0 || head.last() == 47,
        !tail.contains(47),
    ensures
        tail.len() == 0 || (tail == seq![46u8] && head.len() > 0) ==> components(head + tail)
            == components(head),
        tail == seq![46u8] && head.len() == 0 ==> components(head + tail) == seq![
            Component::Current,
        ],
        tail == seq![46u8, 46u8] ==> components(head + tail) == components(head).push(
            Component::Parent,
        ),
        tail.len() > 0 && tail != seq![46u8] && tail != seq![46u8, 46u8] ==> components(head + tail)
            == components(head).push(Component::Name(tail)),
{
    let path = head + tail;
    let n = head.len() as int;
    let last = piece(path, n, path.len() as int);
    assert(path.subrange(n, path.len() as int) =~= tail);
    lemma_places_from_piece(head, tail, 0);
    if n == 0 {
        assert(path =~= tail);
        assert(components(head) =~= seq![]);
        assert forall|i: int| 0 <= i < path.len() implies path[i] != SEPARATOR by {
            assert(tail.contains(tail[i]));
        }
        lemma_piece_end_unique(path, 0, path.len() as int);
        assert(places_from(head, 0) =~= seq![]);
        if path.len() == 1 && path[0] == DOT {
            assert(tail =~= seq![46u8]);
            assert(places_from(path, 1) =~= seq![]);
            assert(components(path) =~= seq![Component::Current]);
        } else {
            assert(tail.len() == 1 ==> tail != seq![46u8]) by {
                if tail == seq![46u8] {
                    assert(tail[0] == 46);
                }
            }
            assert(places(path) =~= last);
            assert(components(path) =~= last.map_values(|p: Place| p.component));
        }
    } else {
        lemma_places_from_piece(head, tail, 1);
        assert(path[0] == head[0]);
        lemma_piece_end(head, 0);
        let end = piece_end(head, 0);
        assert(end < n) by {
            if end == n {
                assert(head[n - 1] != SEPARATOR);
            }
        }
        assert(path[end] == head[end]);
        assert forall|i: int| 0 <= i < end implies path[i] != SEPARATOR by {
            assert(path[i] == head[i]);
        }
        lemma_piece_end_unique(path, 0, end);
        assert(places(path) =~= places(head) + last);
        assert(components(path) =~= components(head) + last.map_values(|p: Place| p.component));
    }
}

proof fn lemma_place_ends(path: Seq<u8>, start: int, k: int)
    requires
        0 <= start,
        0 <= k < places_from(path, start).len(),
    ensures
        ({
            let place = places_from(path, start)[k];
            match place.component {
                Component::Name(name) => name.len() > 0 && start <= place.end - name.len()
                    && place.end <= path.len() && name == path.subrange(
                    place.end - name.len(),
                    place.end,
                ),
                Component::Parent => start <= place.end - 2 && place.end <= path.len()
                    && path.subrange(place.end - 2, place.end) == seq![DOT, DOT],
                _ => false,
            }
        }),
    decreases path.len() + 1 - start,
{
    lemma_piece_end(path, start);
    let end = piece_end(path, start);
    let head = piece(path, start, end);
    let tail = places_from(path, end + 1);
    assert(places_from(path, start) == head + tail);
    if k >= head.len() {
        lemma_place_ends(path, end + 1, k - head.len());
        assert(places_from(path, start)[k] == tail[k - head.len()]);
    }
}

/// A path has no parent if and only if it has no components or is the root.
/// Otherwise the parent is the beginning of the path that has its components but
/// the last, and ends with the last of those: no separator or single full stop
/// follows it.
pub proof fn lemma_parent(path: Seq<u8>)
    ensures
        parent_of(path) is None <==> components(path).len() == 0 || components(path).last() is Root,
        parent_of(path) matches Some(parent) ==> {
            &&& parent.is_prefix_of(path)
            &&& components(parent) == components(path).drop_last()
            &&& components(parent).len() == 0 ==> parent.len() == 0
            &&& components(parent).len() > 0 ==> match components(parent).last() {
                Component::Root => parent == seq![47u8],
                Component::Current => parent == seq![46u8],
                Component::Parent => seq![46u8, 46u8].is_suffix_of(parent),
                Component::Name(name) => name.is_suffix_of(parent),
            }
        },
{
    let all = places(path);
    lemma_places_ends(path);
    lemma_parent_components(path);
    if all.len() > 0 {
        assert(components(path).last() == all.last().component);
    }
    if let Some(parent) = parent_of(path) {
        if all.len() == 1 {
            assert(parent =~= path.subrange(0, 0));
            assert(components(parent) =~= seq![]);
        } else {
            let k = all.len() - 2;
            let place = all[k];
            assert(all[k].end < all[k + 1].end);
            assert(parent =~= path.subrange(0, parent.len() as int));
            assert(components(parent).len() > 0);
            assert(components(parent).last() == components(path)[k]);
            assert(components(path)[k] == place.component);
            let offset: int = if all == places_from(path, 0) {
                0
            } else {
                1
            };
            if offset == 1 {
                assert(all.skip(1) =~= places_from(path, 1));
                if k == 0 {
                    assert(place.end == 1);
                    assert(parent =~= seq![path[0]]);
                } else {
                    assert(all.skip(1)[k - 1] == place);
                    lemma_place_ends(path, 1, k - 1);
                }
            } else {
                lemma_place_ends(path, 0, k);
            }
            match place.component {
                Component::Name(name) => {
                    assert(parent.subrange(parent.len() - name.len(), parent.len() as int)
                        =~= path.subrange(place.end - name.len(), place.end));
                },
                Component::Parent => {
                    assert(parent.subrange(parent.len() - 2, parent.len() as int)
                        =~= path.subrange(place.end - 2, place.end));
                },
                _ => {},
            }
        }
    }
}

/// The file name of a path is its last component, if that is a name.
pub proof fn lemma_file_name(path: Seq<u8>, name: Seq<u8>)
    ensures
        file_name_of(path) == Some(name) <==> components(path).len() > 0 && components(path).last()
            == Component::Name(name),
        file_name_of(path) is None <==> components(path).len() == 0 || !(components(path).last()
            is Name),
{
}

/// A relative name goes behind the directory and one separator, which is not
/// repeated; an absolute one stays as it is.
pub proof fn lemma_below(dir: Seq<u8>, name: Seq<u8>)
    ensures
        name.len() > 0 && name[0] == 47 ==> below(dir, name) == name,
        name.len() == 0 || name[0] != 47 ==> {
            &&& dir.len() == 0 ==> below(dir, name) == name
            &&& dir.len() > 0 && dir.last() == 47 ==> below(dir, name) == dir + name
            &&& dir.len() > 0 && dir.last() != 47 ==> below(dir, name) == dir + seq![47u8] + name
        },
{
    assert(seq![] + name =~= name);
    assert(dir.len() == 0 ==> dir + name =~= name);
    assert(dir.push(47) =~= dir + seq![47u8]);
}

/// A path lies in a directory if and only if it begins with the directory's
/// components.
pub proof fn lemma_lies_in(path: Seq<u8>, dir: Seq<u8>)
    ensures
        lies_in(path, dir) <==> components(dir).len() <= components(path).len() && (forall|i: int|
            0 <= i < components(dir).len() ==> #[trigger] components(dir)[i]
                == components(path)[i]),
{
    let x = components(path);
    let y = components(dir);
    if y.len() <= x.len() {
        let part = x.subrange(0, y.len() as int);
        if lies_in(path, dir) {
            assert forall|i: int| 0 <= i < y.len() implies #[trigger] y[i] == x[i] by {
                assert(part[i] == x[i]);
            }
        }
        if forall|i: int| 0 <= i < y.len() ==> #[trigger] y[i] == x[i] {
            assert(part =~= y);
        }
    }
}

/// A path is that of a Rust source if and only if its file name is something
/// and `.rs`.
pub proof fn lemma_rust_source(path: Seq<u8>)
    ensures
        has_extension(path, rust_extension()) <==> match file_name_of(path) {
            Some(name) => name.len() > 3 && name.skip(name.len() - 3) == seq![46u8, 114u8, 115u8],
            None => false,
        },
{
    if let Some(name) = file_name_of(path) {
        let n = name.len() as int;
        if n > 3 {
            let end = name.skip(n - 3);
            let tail = name.skip(n - 2);
            if has_extension(path, rust_extension()) {
                assert(tail == rust_extension());
                assert(tail[0] == 114 && tail[1] == 115);
                assert(end =~= seq![46u8, 114u8, 115u8]);
            }
            if end == seq![46u8, 114u8, 115u8] {
                assert(end[0] == 46);
                assert(end[1] == 114 && end[2] == 115);
                assert(tail =~= rust_extension());
            }
        }
    }
}

/// Of two components of a different kind the root comes first, then a single
/// full stop, then two, then names; names are ordered by their bytes.
pub proof fn lemma_component_less(x: Seq<u8>, y: Seq<u8>)
    ensures
        component_less(Component::Root, Component::Current),
        component_less(Component::Current, Component::Parent),
        component_less(Component::Parent, Component::Name(x)),
        component_less(Component::Name(x), Component::Name(y)) <==> exists|k: int|
            #![trigger x.take(k)]
            0 <= k <= x.len() && k < y.len() && x.take(k) == y.take(k) && (k == x.len() || x[k]
                < y[k]),
{
    let less = |a: u8, b: u8| a < b;
    crate::order::lemma_lex_less(less, x, y);
    if bytes_less(x, y) {
        let k = choose|k: int|
            #![trigger x.take(k)]
            0 <= k <= x.len() && k < y.len() && x.take(k) == y.take(k) && (k == x.len() || less(
                x[k],
                y[k],
            ));
        assert(x.take(k) == y.take(k));
    }
    if exists|k: int|
        #![trigger x.take(k)]
        0 <= k <= x.len() && k < y.len() && x.take(k) == y.take(k) && (k == x.len() || x[k] < y[k]) {
        let k = choose|k: int|
            #![trigger x.take(k)]
            0 <= k <= x.len() && k < y.len() && x.take(k) == y.take(k) && (k == x.len() || x[k]
                < y[k]);
        assert(k == x.len() || less(x[k], y[k]));
        assert(x.take(k) == y.take(k));
    }
}

/// One path comes before another if and only if their components agree up to
/// some place where those of the one end and those of the other do not, or the
/// one has the lesser component.
pub proof fn lemma_path_less(a: Seq<u8>, b: Seq<u8>)
    ensures
        path_less(a, b) <==> exists|k: int|
            #![trigger components(a).take(k)]
            0 <= k <= components(a).len() && k < components(b).len() && components(a).take(k)
                == components(b).take(k) && (k == components(a).len() || component_less(
                components(a)[k],
                components(b)[k],
            )),
{
    let less = |x: Component, y: Component| component_less(x, y);
    let p = components(a);
    let q = components(b);
    crate::order::lemma_lex_less(less, p, q);
    if path_less(a, b) {
        let k = choose|k: int|
            #![trigger p.take(k)]
            0 <= k <= p.len() && k < q.len() && p.take(k) == q.take(k) && (k == p.len() || less(
                p[k],
                q[k],
            ));
        assert(p.take(k) == q.take(k));
    }
    if exists|k: int|
        #![trigger p.take(k)]
        0 <= k <= p.len() && k < q.len() && p.take(k) == q.take(k) && (k == p.len()
            || component_less(p[k], q[k])) {
        let k = choose|k: int|
            #![trigger p.take(k)]
            0 <= k <= p.len() && k < q.len() && p.take(k) == q.take(k) && (k == p.len()
                || component_less(p[k], q[k]));
        assert(k == p.len() || less(p[k], q[k]));
        assert(p.take(k) == q.take(k));
    }
}

/// There is one sequence of bytes for each path, in the same order.
pub proof fn lemma_path_views(paths: Seq<Vec<u8>>)
    ensures
        path_views(paths).len() == paths.len(),
        forall|i: int| 0 <= i < paths.len() ==> #[trigger] path_views(paths)[i] == paths[i]@,
{
}

/// A path is among others if and only if one of them has its components.
pub proof fn lemma_has_path(paths: Seq<Seq<u8>>, path: Seq<u8>)
    ensures
        !has_path(seq![], path),
        forall|other: Seq<u8>|
            #![trigger paths.push(other)]
            has_path(paths.push(other), path) <==> has_path(paths, path) || components(other)
                == components(path),
{
    assert forall|other: Seq<u8>|
        #![trigger paths.push(other)]
        has_path(paths.push(other), path) <==> has_path(paths, path) || components(other)
            == components(path) by {
        let more = paths.push(other);
        assert(more[paths.len() as int] == other);
        if has_path(paths, path) {
            let i = choose|i: int|
                0 <= i < paths.len() && components(#[trigger] paths[i]) == components(path);
            assert(more[i] == paths[i]);
        }
        if has_path(more, path) {
            let i = choose|i: int|
                0 <= i < more.len() && components(#[trigger] more[i]) == components(path);
            if i < paths.len() {
                assert(paths[i] == more[i]);
            }
        }
    }
}

} // verus!
