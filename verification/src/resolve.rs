use vstd::prelude::*;

use crate::groups::NameGroup;
use crate::groups::str_views;
use crate::paths::join_path;
use crate::paths::join_spec;

verus! {

/// A duplicate set ready for the operator: a canonical name together with
/// the filenames that were found on disk and, in the same order, the full
/// paths they were found at.
pub struct ResolvedDuplicateSet {
    pub name: String,
    pub filenames: Vec<String>,
    pub paths: Vec<String>,
}

impl ResolvedDuplicateSet {
    /// Filenames and paths line up one to one, and there are at least two
    /// of them: fewer would leave nothing to resolve.
    pub open spec fn wf(&self) -> bool {
        self.filenames@.len() == self.paths@.len() && self.paths@.len() >= 2
    }
}

/// The members of `xs` whose flag in `ex` is set, order kept.
pub open spec fn kept(xs: Seq<Seq<char>>, ex: Seq<bool>) -> Seq<Seq<char>>
    decreases xs.len(),
{
    if xs.len() == 0 {
        Seq::<Seq<char>>::empty()
    } else {
        let rest = kept(xs.drop_last(), ex.drop_last());
        if ex.len() == xs.len() && ex.last() {
            rest.push(xs.last())
        } else {
            rest
        }
    }
}

/// Each filename of `fs` joined onto the directory `dir`, in order.
pub open spec fn joined_views(dir: Seq<char>, fs: Seq<Seq<char>>) -> Seq<Seq<char>> {
    fs.map_values(|f: Seq<char>| join_spec(dir, f))
}

/// A duplicate set lists exactly the candidate paths that are present on
/// disk: keeping a filename and then joining it onto the ROM directory is
/// the same as joining every filename first and keeping the joined paths
/// whose flags are set.
pub proof fn lemma_kept_join_commutes(dir: Seq<char>, fs: Seq<Seq<char>>, ex: Seq<bool>)
    requires
        fs.len() == ex.len(),
    ensures
        kept(joined_views(dir, fs), ex) == joined_views(dir, kept(fs, ex)),
    decreases fs.len(),
{
    if fs.len() == 0 {
        assert(kept(joined_views(dir, fs), ex) =~= joined_views(dir, kept(fs, ex)));
    } else {
        lemma_kept_join_commutes(dir, fs.drop_last(), ex.drop_last());
        assert(joined_views(dir, fs).drop_last() =~= joined_views(dir, fs.drop_last()));
        assert(joined_views(dir, fs).last() == join_spec(dir, fs.last()));
        if ex.last() {
            assert(joined_views(dir, kept(fs, ex)) =~= joined_views(
                dir,
                kept(fs.drop_last(), ex.drop_last()),
            ).push(join_spec(dir, fs.last())));
            assert(kept(joined_views(dir, fs), ex) =~= joined_views(dir, kept(fs, ex)));
        } else {
            assert(kept(joined_views(dir, fs), ex) =~= joined_views(dir, kept(fs, ex)));
        }
    }
}

/// The candidate paths of a group: each filename joined onto the ROM
/// directory, in group order. A group with at most one filename is no
/// duplicate candidate and yields none at all, so nothing downstream ever
/// probes the disk for it.
pub fn candidate_paths(group: &NameGroup, romdir: &str) -> (r: Option<Vec<String>>)
    ensures
        match r {
            Some(ps) => group.filenames@.len() > 1 && ps@.len() == group.filenames@.len()
                && forall|i: int|
                0 <= i < ps@.len() ==> ps@[i]@ == join_spec(romdir@, group.filenames@[i]@),
            None => group.filenames@.len() <= 1,
        },
{
    let n = group.filenames.len();
    if n <= 1 {
        return None;
    }
    let mut ps: Vec<String> = Vec::new();
    let mut i: usize = 0;
    while i < n
        invariant
            i <= n,
            n == group.filenames@.len(),
            ps@.len() == i,
            forall|k: int| 0 <= k < i ==> ps@[k]@ == join_spec(romdir@, group.filenames@[k]@),
        decreases n - i,
    {
        ps.push(join_path(romdir, group.filenames[i].as_str()));
        i = i + 1;
    }
    Some(ps)
}

/// Keeps the filenames of a group that are present on disk (the caller
/// hands one flag per filename) and yields a duplicate set exactly when at
/// least two are, with each kept filename joined onto the ROM directory in
/// unchanged order. Fewer than two present files leave nothing to resolve.
pub fn resolve_existing(group: &NameGroup, romdir: &str, exists: &Vec<bool>) -> (r: Option<
    ResolvedDuplicateSet,
>)
    requires
        exists@.len() == group.filenames@.len(),
    ensures
        match r {
            Some(s) => {
                &&& kept(str_views(group.filenames@), exists@).len() >= 2
                &&& s.wf()
                &&& s.name@ == group.name@
                &&& str_views(s.filenames@) == kept(str_views(group.filenames@), exists@)
                &&& str_views(s.paths@) == joined_views(romdir@, str_views(s.filenames@))
            },
            None => kept(str_views(group.filenames@), exists@).len() < 2,
        },
{
    let n = group.filenames.len();
    let mut fnames: Vec<String> = Vec::new();
    let mut paths: Vec<String> = Vec::new();
    let mut i: usize = 0;
    proof {
        assert(str_views(group.filenames@).take(0) =~= Seq::<Seq<char>>::empty());
        assert(kept(str_views(group.filenames@).take(0), exists@.take(0)) =~= Seq::<
            Seq<char>,
        >::empty());
        assert(str_views(fnames@) =~= Seq::<Seq<char>>::empty());
    }
    while i < n
        invariant
            i <= n,
            n == group.filenames@.len(),
            exists@.len() == n,
            paths@.len() == fnames@.len(),
            str_views(fnames@) == kept(
                str_views(group.filenames@).take(i as int),
                exists@.take(i as int),
            ),
            forall|k: int|
                0 <= k < paths@.len() ==> paths@[k]@ == join_spec(romdir@, fnames@[k]@),
        decreases n - i,
    {
        let ghost xs = str_views(group.filenames@);
        proof {
            assert(xs.take(i + 1 as int).drop_last() =~= xs.take(i as int));
            assert(exists@.take(i + 1 as int).drop_last() =~= exists@.take(i as int));
            assert(xs.take(i + 1 as int).last() == group.filenames@[i as int]@);
        }
        if exists[i] {
            let f = group.filenames[i].clone();
            paths.push(join_path(romdir, f.as_str()));
            fnames.push(f);
            proof {
                assert(str_views(fnames@) =~= str_views(fnames@.drop_last()).push(
                    group.filenames@[i as int]@,
                ));
            }
        }
        i = i + 1;
    }
    proof {
        assert(str_views(group.filenames@).take(n as int) =~= str_views(group.filenames@));
        assert(exists@.take(n as int) =~= exists@);
    }
    if fnames.len() >= 2 {
        proof {
            assert(str_views(paths@) =~= joined_views(romdir@, str_views(fnames@)));
        }
        Some(ResolvedDuplicateSet { name: group.name.clone(), filenames: fnames, paths })
    } else {
        None
    }
}

} // verus!
