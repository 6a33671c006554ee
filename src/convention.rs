//! Which conventions still have to be fetched.

use vstd::prelude::*;

use crate::competition::Convention;
use crate::text::views;

verus! {

/// The tags of `required` that `known` lacks, each once, in the order they first appear.
pub open spec fn missing_tags(known: Seq<Seq<char>>, required: Seq<Seq<char>>) -> Seq<Seq<char>>
    decreases required.len(),
{
    if required.len() == 0 {
        Seq::empty()
    } else {
        let d = missing_tags(known, required.drop_last());
        let t = required.last();
        if known.contains(t) || d.contains(t) {
            d
        } else {
            d.push(t)
        }
    }
}

pub open spec fn tags_of(conventions: Seq<Convention>) -> Seq<Seq<char>> {
    conventions.map_values(|c: Convention| c@.0)
}

fn has_text(v: &Vec<String>, t: &String) -> (r: bool)
    ensures
        r == views(v@).contains(t@),
{
    let mut i: usize = 0;
    while i < v.len()
        invariant
            i <= v.len(),
            forall|j: int| 0 <= j < i ==> views(v@)[j] != t@,
        decreases v.len() - i,
    {
        if v[i] == *t {
            assert(views(v@)[i as int] == t@);
            return true;
        }
        i = i + 1;
    }
    false
}

fn has_tag(conventions: &Vec<Convention>, t: &String) -> (r: bool)
    ensures
        r == tags_of(conventions@).contains(t@),
{
    let mut i: usize = 0;
    while i < conventions.len()
        invariant
            i <= conventions.len(),
            forall|j: int| 0 <= j < i ==> tags_of(conventions@)[j] != t@,
        decreases conventions.len() - i,
    {
        if *conventions[i].tag() == *t {
            assert(tags_of(conventions@)[i as int] == t@);
            return true;
        }
        i = i + 1;
    }
    false
}

/// The tags of the required conventions that were not downloaded yet, each once.
pub fn compute_conventions_to_download(
    already_downloaded_conventions: &Vec<Convention>,
    required_conventions: &Vec<String>,
) -> (r: Vec<String>)
    ensures
        views(r@) == missing_tags(
            tags_of(already_downloaded_conventions@),
            views(required_conventions@),
        ),
{
    let ghost known = tags_of(already_downloaded_conventions@);
    let ghost all = views(required_conventions@);
    let mut out: Vec<String> = Vec::new();
    let mut i: usize = 0;
    assert(all.take(0) =~= Seq::<Seq<char>>::empty());
    assert(views(out@) =~= Seq::<Seq<char>>::empty());
    while i < required_conventions.len()
        invariant
            i <= required_conventions.len(),
            known == tags_of(already_downloaded_conventions@),
            all == views(required_conventions@),
            views(out@) == missing_tags(known, all.take(i as int)),
        decreases required_conventions.len() - i,
    {
        assert(all.take(i + 1).drop_last() =~= all.take(i as int));
        assert(all.take(i + 1).last() == required_conventions@[i as int]@);
        let tag = &required_conventions[i];
        if !has_tag(already_downloaded_conventions, tag) && !has_text(&out, tag) {
            let ghost prev = out@;
            let copy = tag.clone();
            out.push(copy);
            assert(views(out@) =~= views(prev).push(tag@));
        }
        i = i + 1;
    }
    assert(all.take(required_conventions.len() as int) =~= all);
    out
}

} // verus!
