//! Paths and the shares they lie in.
use vstd::prelude::*;
use crate::text::{same_text, split, split_on, views};
use crate::util::{first_occurrences, unique};

verus! {

/// The pieces that are not empty, in their order.
pub open spec fn non_empty(parts: Seq<Seq<char>>) -> Seq<Seq<char>>
    decreases parts.len(),
{
    if parts.len() == 0 {
        Seq::<Seq<char>>::empty()
    } else if parts.last().len() == 0 {
        non_empty(parts.drop_last())
    } else {
        non_empty(parts.drop_last()).push(parts.last())
    }
}

/// The components of a path: what stands between its slashes, without the
/// empty pieces.
pub open spec fn path_components(path: Seq<char>) -> Seq<Seq<char>> {
    non_empty(split_on(path, '/'))
}

/// The components of a path.
pub fn sanitize_path(path: &str) -> (parts: Vec<String>)
    ensures
        views(parts@) == path_components(path@),
{
    let pieces = split(path, '/');
    let mut parts: Vec<String> = Vec::new();
    let mut i: usize = 0;
    assert(views(pieces@).take(0) == Seq::<Seq<char>>::empty());
    while i < pieces.len()
        invariant
            i <= pieces.len(),
            views(parts@) == non_empty(views(pieces@).take(i as int)),
        decreases pieces.len() - i,
    {
        let ghost before = views(parts@);
        proof {
            let now = views(pieces@).take(i + 1);
            assert(now.drop_last() == views(pieces@).take(i as int));
            assert(now.last() == pieces@[i as int]@);
        }
        if !pieces[i].as_str().is_empty() {
            parts.push(pieces[i].clone());
            assert(views(parts@) == before.push(pieces@[i as int]@));
        }
        i += 1;
    }
    assert(views(pieces@).take(i as int) == views(pieces@));
    parts
}

/// Whether `whole` starts with the components of `start`.
pub open spec fn starts_with(whole: Seq<Seq<char>>, start: Seq<Seq<char>>) -> bool {
    start.len() <= whole.len() && whole.take(start.len() as int) == start
}

/// Whether the path `whole` starts with the components of `start`.
pub fn path_starts_with(whole: &Vec<String>, start: &Vec<String>) -> (r: bool)
    ensures
        r == starts_with(views(whole@), views(start@)),
{
    if start.len() > whole.len() {
        return false;
    }
    let mut i: usize = 0;
    while i < start.len()
        invariant
            i <= start.len(),
            start.len() <= whole.len(),
            forall|k: int| 0 <= k < i ==> whole@[k]@ == start@[k]@,
        decreases start.len() - i,
    {
        if !same_text(whole[i].as_str(), start[i].as_str()) {
            assert(views(whole@).take(start.len() as int)[i as int] != views(start@)[i as int]);
            return false;
        }
        i += 1;
    }
    assert(views(whole@).take(start.len() as int) =~= views(start@));
    true
}

/// The share that a path lies in: of the shares whose components the path
/// starts with, the one with the most components, and of several such the
/// one listed last. This is the share that is met last when the shares are
/// gone through in ascending order of their number of components.
pub open spec fn selected_share(shares: Seq<Seq<char>>, path: Seq<Seq<char>>) -> Option<Seq<char>>
    decreases shares.len(),
{
    if shares.len() == 0 {
        None
    } else {
        let before = selected_share(shares.drop_last(), path);
        let share = shares.last();
        if starts_with(path, path_components(share)) && (before matches Some(b)
            ==> path_components(b).len() <= path_components(share).len()) {
            Some(share)
        } else {
            before
        }
    }
}

/// The selected share is a share that the path lies in, and no share that
/// the path lies in has more components. Where no share is selected, the
/// path lies in none.
pub proof fn lemma_selected_share(shares: Seq<Seq<char>>, path: Seq<Seq<char>>)
    ensures
        match selected_share(shares, path) {
            Some(s) => shares.contains(s) && starts_with(path, path_components(s)) && forall|
                i: int,
            |
                0 <= i < shares.len() && starts_with(path, path_components(#[trigger] shares[i]))
                    ==> path_components(shares[i]).len() <= path_components(s).len(),
            None => forall|i: int|
                0 <= i < shares.len() ==> !starts_with(
                    path,
                    path_components(#[trigger] shares[i]),
                ),
        },
    decreases shares.len(),
{
    if shares.len() > 0 {
        let before = shares.drop_last();
        lemma_selected_share(before, path);
        let last = shares.last();
        assert(shares[shares.len() - 1] == last);
        assert forall|i: int| 0 <= i < before.len() implies before[i] == shares[i] by {}
        match selected_share(shares, path) {
            Some(s) => {
                if s != last || !(starts_with(path, path_components(last)) && (selected_share(
                    before,
                    path,
                ) matches Some(b) ==> path_components(b).len() <= path_components(last).len())) {
                    assert(before.contains(s));
                    let k = choose|k: int| 0 <= k < before.len() && before[k] == s;
                    assert(shares[k] == s);
                }
                assert forall|i: int|
                    0 <= i < shares.len() && starts_with(
                        path,
                        path_components(#[trigger] shares[i]),
                    ) implies path_components(shares[i]).len() <= path_components(s).len() by {
                    if i < before.len() {
                        assert(before[i] == shares[i]);
                    }
                }
            },
            None => {
                assert forall|i: int| 0 <= i < shares.len() implies !starts_with(
                    path,
                    path_components(#[trigger] shares[i]),
                ) by {
                    if i < before.len() {
                        assert(before[i] == shares[i]);
                    }
                }
            },
        }
    }
}

/// For each share that lies below the path, in the order of the listing, the
/// component of the share that follows the path.
pub open spec fn next_components(shares: Seq<Seq<char>>, path: Seq<Seq<char>>) -> Seq<Seq<char>>
    decreases shares.len(),
{
    if shares.len() == 0 {
        Seq::<Seq<char>>::empty()
    } else {
        let before = next_components(shares.drop_last(), path);
        let parts = path_components(shares.last());
        if !starts_with(path, parts) && starts_with(parts, path) {
            before.push(parts[path.len() as int])
        } else {
            before
        }
    }
}

/// The number of components of the selected share; zero where there is
/// none.
pub open spec fn selected_size(shares: Seq<Seq<char>>, path: Seq<Seq<char>>) -> nat {
    match selected_share(shares, path) {
        Some(s) => path_components(s).len(),
        None => 0,
    }
}

/// Finds among the names of the shares of a backup the share that `path`
/// lies in, and the directories that lead from `path` to shares below it.
/// Returns these directories, each once, then the share and the number of
/// its components.
pub fn select_share(shares: &Vec<String>, path: &Vec<String>) -> (r: (
    Vec<String>,
    Option<String>,
    usize,
))
    ensures
        views(r.0@) == first_occurrences(next_components(views(shares@), views(path@))),
        match selected_share(views(shares@), views(path@)) {
            Some(s) => r.1 matches Some(t) && t@ == s,
            None => r.1 is None,
        },
        r.2 == selected_size(views(shares@), views(path@)),
        r.2 <= path.len(),
{
    let ghost all = views(shares@);
    let ghost p = views(path@);
    let mut below: Vec<String> = Vec::new();
    let mut selected: Option<String> = None;
    let mut share_size: usize = 0;
    let mut i: usize = 0;
    assert(all.take(0) == Seq::<Seq<char>>::empty());
    while i < shares.len()
        invariant
            i <= shares.len(),
            all == views(shares@),
            p == views(path@),
            views(below@) == next_components(all.take(i as int), p),
            match selected_share(all.take(i as int), p) {
                Some(s) => selected matches Some(t) && t@ == s,
                None => selected is None,
            },
            share_size == selected_size(all.take(i as int), p),
            share_size <= path.len(),
        decreases shares.len() - i,
    {
        let ghost before = views(below@);
        proof {
            let now = all.take(i + 1);
            assert(now.drop_last() == all.take(i as int));
            assert(now.last() == shares@[i as int]@);
        }
        let parts = sanitize_path(shares[i].as_str());
        if path_starts_with(path, &parts) {
            if parts.len() >= share_size {
                selected = Some(shares[i].clone());
                share_size = parts.len();
            }
        } else if path_starts_with(&parts, path) {
            assert(parts.len() > path.len()) by {
                if parts.len() == path.len() {
                    assert(views(parts@).take(path.len() as int) == views(parts@));
                    assert(p.take(parts.len() as int) == p);
                }
            }
            below.push(parts[path.len()].clone());
            assert(views(below@) == before.push(views(parts@)[path.len() as int]));
        }
        i += 1;
    }
    assert(all.take(i as int) == all);
    (unique(below), selected, share_size)
}

} // verus!
