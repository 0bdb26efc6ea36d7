use vstd::prelude::*;

use crate::choice::choice_spec;
use crate::choice::trimmed;
use crate::choice::valid_choice_str;
use crate::groups::str_views;
use crate::paths::join_path;
use crate::paths::join_spec;
use crate::resolve::ResolvedDuplicateSet;

verus! {

/// One planned relocation: the file at `from` is to be renamed to `to`.
pub struct MovePlan {
    pub from: String,
    pub to: String,
}

impl View for MovePlan {
    type V = (Seq<char>, Seq<char>);

    open spec fn view(&self) -> (Seq<char>, Seq<char>) {
        (self.from@, self.to@)
    }
}

/// The views of a sequence of move plans.
pub open spec fn move_views(ms: Seq<MovePlan>) -> Seq<(Seq<char>, Seq<char>)> {
    ms.map_values(|m: MovePlan| m@)
}

/// The sources of a sequence of planned moves.
pub open spec fn move_sources(ms: Seq<(Seq<char>, Seq<char>)>) -> Seq<Seq<char>> {
    ms.map_values(|m: (Seq<char>, Seq<char>)| m.0)
}

/// The destinations of a sequence of planned moves.
pub open spec fn move_dests(ms: Seq<(Seq<char>, Seq<char>)>) -> Seq<Seq<char>> {
    ms.map_values(|m: (Seq<char>, Seq<char>)| m.1)
}

/// The moves planned over the first `n` entries: every entry whose 1-based
/// position differs from `choice` goes to the quarantine directory under
/// its own filename.
pub open spec fn moves_upto(
    paths: Seq<Seq<char>>,
    fnames: Seq<Seq<char>>,
    dupdir: Seq<char>,
    choice: int,
    n: int,
) -> Seq<(Seq<char>, Seq<char>)>
    decreases n,
{
    if n <= 0 {
        Seq::<(Seq<char>, Seq<char>)>::empty()
    } else {
        let rest = moves_upto(paths, fnames, dupdir, choice, n - 1);
        if n == choice {
            rest
        } else {
            rest.push((paths[n - 1], join_spec(dupdir, fnames[n - 1])))
        }
    }
}

/// All moves a duplicate set calls for once the operator chose the 1-based
/// entry `choice` to keep.
pub open spec fn moves_spec(
    paths: Seq<Seq<char>>,
    fnames: Seq<Seq<char>>,
    dupdir: Seq<char>,
    choice: int,
) -> Seq<(Seq<char>, Seq<char>)> {
    moves_upto(paths, fnames, dupdir, choice, paths.len() as int)
}

/// Plans the relocations for one duplicate set: every listed file except
/// the one at the operator's 1-based choice is sent to the quarantine
/// directory under its unchanged filename, in list order. A choice out of
/// range matches no entry, so every listed file is planned for relocation.
pub fn moves_for_choice(set: &ResolvedDuplicateSet, dupdir: &str, choice: usize) -> (r: Vec<
    MovePlan,
>)
    requires
        set.filenames@.len() == set.paths@.len(),
    ensures
        move_views(r@) == moves_spec(
            str_views(set.paths@),
            str_views(set.filenames@),
            dupdir@,
            choice as int,
        ),
{
    let ghost ps = str_views(set.paths@);
    let ghost fs = str_views(set.filenames@);
    let n = set.paths.len();
    let mut r: Vec<MovePlan> = Vec::new();
    let mut i: usize = 0;
    proof {
        assert(move_views(r@) =~= moves_upto(ps, fs, dupdir@, choice as int, 0));
    }
    while i < n
        invariant
            i <= n,
            n == set.paths@.len(),
            n == set.filenames@.len(),
            ps == str_views(set.paths@),
            fs == str_views(set.filenames@),
            move_views(r@) == moves_upto(ps, fs, dupdir@, choice as int, i as int),
        decreases n - i,
    {
        if i + 1 != choice {
            let m = MovePlan {
                from: set.paths[i].clone(),
                to: join_path(dupdir, set.filenames[i].as_str()),
            };
            r.push(m);
            proof {
                assert(move_views(r@) =~= moves_upto(ps, fs, dupdir@, choice as int, i + 1));
            }
        } else {
            proof {
                assert(move_views(r@) =~= moves_upto(ps, fs, dupdir@, choice as int, i + 1));
            }
        }
        i = i + 1;
    }
    r
}

proof fn lemma_moves_upto_partition(
    paths: Seq<Seq<char>>,
    fnames: Seq<Seq<char>>,
    dupdir: Seq<char>,
    choice: int,
    n: int,
)
    requires
        paths.len() == fnames.len(),
        0 <= n <= paths.len(),
    ensures
        choice < 1 || choice > n ==> {
            &&& move_sources(moves_upto(paths, fnames, dupdir, choice, n)) == paths.take(n)
            &&& move_dests(moves_upto(paths, fnames, dupdir, choice, n)) == fnames.take(
                n,
            ).map_values(|f: Seq<char>| join_spec(dupdir, f))
        },
        1 <= choice <= n ==> {
            &&& move_sources(moves_upto(paths, fnames, dupdir, choice, n)) == paths.take(n).remove(
                choice - 1,
            )
            &&& move_dests(moves_upto(paths, fnames, dupdir, choice, n)) == fnames.take(n).remove(
                choice - 1,
            ).map_values(|f: Seq<char>| join_spec(dupdir, f))
        },
    decreases n,
{
    if n <= 0 {
        assert(move_sources(moves_upto(paths, fnames, dupdir, choice, n)) =~= paths.take(n));
        assert(move_dests(moves_upto(paths, fnames, dupdir, choice, n)) =~= fnames.take(
            n,
        ).map_values(|f: Seq<char>| join_spec(dupdir, f)));
    } else {
        lemma_moves_upto_partition(paths, fnames, dupdir, choice, n - 1);
        let ms = moves_upto(paths, fnames, dupdir, choice, n);
        let rest = moves_upto(paths, fnames, dupdir, choice, n - 1);
        if choice < 1 || choice > n {
            assert(move_sources(ms) =~= move_sources(rest).push(paths[n - 1]));
            assert(move_dests(ms) =~= move_dests(rest).push(join_spec(dupdir, fnames[n - 1])));
            assert(move_sources(ms) =~= paths.take(n));
            assert(move_dests(ms) =~= fnames.take(n).map_values(
                |f: Seq<char>| join_spec(dupdir, f),
            ));
        } else if choice == n {
            assert(ms == rest);
            assert(paths.take(n).remove(choice - 1) =~= paths.take(n - 1));
            assert(fnames.take(n).remove(choice - 1) =~= fnames.take(n - 1));
        } else {
            // choice <= n - 1: entry n - 1 is moved, and removing the kept
            // entry commutes with appending this one
            assert(move_sources(ms) =~= move_sources(rest).push(paths[n - 1]));
            assert(move_dests(ms) =~= move_dests(rest).push(join_spec(dupdir, fnames[n - 1])));
            assert(paths.take(n).remove(choice - 1) =~= paths.take(n - 1).remove(
                choice - 1,
            ).push(paths[n - 1]));
            assert(fnames.take(n).remove(choice - 1) =~= fnames.take(n - 1).remove(
                choice - 1,
            ).push(fnames[n - 1]));
            assert(move_sources(ms) =~= paths.take(n).remove(choice - 1));
            assert(move_dests(ms) =~= fnames.take(n).remove(choice - 1).map_values(
                |f: Seq<char>| join_spec(dupdir, f),
            ));
        }
    }
}

/// A choice within range keeps exactly the chosen entry: the planned moves
/// take every other listed path, in list order, each to the quarantine
/// directory under its own filename.
pub proof fn lemma_choice_partition(
    paths: Seq<Seq<char>>,
    fnames: Seq<Seq<char>>,
    dupdir: Seq<char>,
    choice: int,
)
    requires
        paths.len() == fnames.len(),
        1 <= choice <= paths.len(),
    ensures
        moves_spec(paths, fnames, dupdir, choice).len() == paths.len() - 1,
        move_sources(moves_spec(paths, fnames, dupdir, choice)) == paths.remove(choice - 1),
        move_dests(moves_spec(paths, fnames, dupdir, choice)) == fnames.remove(
            choice - 1,
        ).map_values(|f: Seq<char>| join_spec(dupdir, f)),
{
    lemma_moves_upto_partition(paths, fnames, dupdir, choice, paths.len() as int);
    assert(paths.take(paths.len() as int) =~= paths);
    assert(fnames.take(fnames.len() as int) =~= fnames);
    assert(moves_spec(paths, fnames, dupdir, choice).len() == move_sources(
        moves_spec(paths, fnames, dupdir, choice),
    ).len());
    assert(paths.remove(choice - 1).len() == paths.len() - 1);
}

/// A choice out of range (0, or past the end of the list) matches no entry:
/// every listed path is planned for relocation.
pub proof fn lemma_choice_out_of_range(
    paths: Seq<Seq<char>>,
    fnames: Seq<Seq<char>>,
    dupdir: Seq<char>,
    choice: int,
)
    requires
        paths.len() == fnames.len(),
        choice < 1 || choice > paths.len(),
    ensures
        move_sources(moves_spec(paths, fnames, dupdir, choice)) == paths,
        move_dests(moves_spec(paths, fnames, dupdir, choice)) == fnames.map_values(
            |f: Seq<char>| join_spec(dupdir, f),
        ),
{
    lemma_moves_upto_partition(paths, fnames, dupdir, choice, paths.len() as int);
    assert(paths.take(paths.len() as int) =~= paths);
    assert(fnames.take(fnames.len() as int) =~= fnames);
}

/// Operator input that is empty or not a number falls back to choice 1, and
/// choice 1 keeps exactly the first listed entry: every other path is
/// planned for relocation under its unchanged filename.
pub proof fn lemma_default_keep(
    line: Seq<char>,
    paths: Seq<Seq<char>>,
    fnames: Seq<Seq<char>>,
    dupdir: Seq<char>,
)
    requires
        !valid_choice_str(trimmed(line)),
        paths.len() == fnames.len(),
        paths.len() >= 1,
    ensures
        choice_spec(line) == 1,
        move_sources(moves_spec(paths, fnames, dupdir, choice_spec(line))) == paths.drop_first(),
        move_dests(moves_spec(paths, fnames, dupdir, choice_spec(line))) == fnames.drop_first(
        ).map_values(|f: Seq<char>| join_spec(dupdir, f)),
{
    lemma_choice_partition(paths, fnames, dupdir, 1);
    assert(paths.remove(0) =~= paths.drop_first());
    assert(fnames.remove(0) =~= fnames.drop_first());
}

} // verus!
