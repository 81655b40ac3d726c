//! The entries of a ZIP bundle.
use vstd::prelude::*;

use crate::text::str_eq;

verus! {

/// A file to be written into a ZIP archive.
pub struct ZipEntry {
    pub path: String,
    pub data: Vec<u8>,
}

pub open spec fn entry_paths(es: Seq<ZipEntry>) -> Seq<Seq<char>> {
    es.map_values(|e: ZipEntry| e.path@)
}

/// The entries that are written: each path only the first time it comes.
pub open spec fn first_by_path(es: Seq<(Seq<char>, Seq<u8>)>) -> Seq<(Seq<char>, Seq<u8>)>
    decreases es.len(),
{
    if es.len() == 0 {
        es
    } else {
        let r = first_by_path(es.drop_last());
        if exists|i: int| 0 <= i < r.len() && r[i].0 == es.last().0 {
            r
        } else {
            r.push(es.last())
        }
    }
}

pub open spec fn entry_views(es: Seq<ZipEntry>) -> Seq<(Seq<char>, Seq<u8>)> {
    es.map_values(|e: ZipEntry| (e.path@, e.data@))
}

pub fn unique_entries(entries: Vec<ZipEntry>) -> (r: Vec<ZipEntry>)
    ensures
        entry_views(r@) == first_by_path(entry_views(entries@)),
{
    let ghost src = entry_views(entries@);
    let mut kept: Vec<ZipEntry> = Vec::new();
    let mut rest = entries;
    let mut taken: Vec<ZipEntry> = Vec::new();
    // reverse so that entries can be moved out front to back
    while rest.len() > 0
        invariant
            src == entry_views(rest@) + entry_views(taken@).reverse(),
        decreases rest@.len(),
    {
        let ghost before_rest = rest@;
        let ghost before_taken = taken@;
        let e = rest.pop().unwrap();
        taken.push(e);
        assert(before_rest =~= rest@.push(e));
        assert(entry_views(taken@).reverse() =~= seq![(e.path@, e.data@)] + entry_views(
            before_taken,
        ).reverse());
        assert(src =~= entry_views(rest@) + entry_views(taken@).reverse());
    }
    let n = taken.len();
    let ghost total = n as int;
    assert(src =~= entry_views(taken@).reverse());
    assert(src.take(0) =~= Seq::<(Seq<char>, Seq<u8>)>::empty());
    while taken.len() > 0
        invariant
            total == src.len(),
            taken@.len() <= total,
            entry_views(taken@).reverse() == src.skip(total - taken@.len()),
            entry_views(kept@) == first_by_path(src.take(total - taken@.len())),
        decreases taken@.len(),
    {
        let ghost before = taken@;
        let ghost i = total - taken@.len();
        let e = taken.pop().unwrap();
        assert(before =~= taken@.push(e));
        assert(entry_views(before) =~= entry_views(taken@).push((e.path@, e.data@)));
        assert(entry_views(before).reverse() =~= seq![(e.path@, e.data@)] + entry_views(
            taken@,
        ).reverse());
        assert(entry_views(before).reverse()[0] == (e.path@, e.data@));
        assert(src[i] == src.skip(i)[0]);
        assert(src[i] == (e.path@, e.data@));
        assert(src.skip(i).drop_first() =~= src.skip(i + 1));
        assert(entry_views(taken@).reverse() =~= entry_views(before).reverse().drop_first());
        assert(entry_views(taken@).reverse() =~= src.skip(i + 1));
        assert(src.take(i + 1).drop_last() =~= src.take(i));
        assert(src.take(i + 1).last() == src[i]);
        let mut seen = false;
        let mut j: usize = 0;
        while j < kept.len()
            invariant
                j <= kept@.len(),
                seen == (exists|t: int| 0 <= t < j && kept@[t].path@ == e.path@),
            decreases kept@.len() - j,
        {
            if str_eq(kept[j].path.as_str(), e.path.as_str()) {
                seen = true;
            }
            j = j + 1;
        }
        let ghost r = entry_views(kept@);
        proof {
            if seen {
                let t = choose|t: int| 0 <= t < kept@.len() && kept@[t].path@ == e.path@;
                assert(r[t].0 == e.path@);
            } else {
                assert forall|t: int| 0 <= t < r.len() implies r[t].0 != e.path@ by {
                    assert(r[t].0 == kept@[t].path@);
                }
            }
        }
        if !seen {
            kept.push(e);
            assert(entry_views(kept@) =~= r.push(src[i]));
        }
    }
    assert(src.take(total) =~= src);
    kept
}

/// No two kept entries share a path, and every path given is kept.
pub proof fn lemma_unique_entries(es: Seq<(Seq<char>, Seq<u8>)>)
    ensures
        forall|i: int, j: int|
            0 <= i < j < first_by_path(es).len() ==> first_by_path(es)[i].0 != first_by_path(
                es,
            )[j].0,
        forall|k: int|
            0 <= k < es.len() ==> exists|i: int|
                0 <= i < first_by_path(es).len() && #[trigger] first_by_path(es)[i].0 == (
                #[trigger] es[k]).0,
    decreases es.len(),
{
    if es.len() > 0 {
        let t = es.drop_last();
        lemma_unique_entries(t);
        let r = first_by_path(t);
        let f = first_by_path(es);
        assert forall|k: int| 0 <= k < es.len() implies exists|i: int|
            0 <= i < f.len() && #[trigger] f[i].0 == (#[trigger] es[k]).0 by {
            if k < es.len() - 1 {
                assert(es[k] == t[k]);
                let i = choose|i: int| 0 <= i < r.len() && #[trigger] r[i].0 == (#[trigger] t[k]).0;
                assert(f[i] == r[i]);
            } else {
                if exists|i: int| 0 <= i < r.len() && r[i].0 == es.last().0 {
                    let i = choose|i: int| 0 <= i < r.len() && r[i].0 == es.last().0;
                    assert(f[i] == r[i]);
                } else {
                    assert(f[r.len() as int] == es.last());
                }
            }
        }
    }
}

} // verus!
