use vstd::prelude::*;

use crate::catalog::CatalogRecord;
use crate::catalog::DedupeError;
use crate::paths::filename_of;
use crate::paths::filename_spec;
use crate::paths::has_filename;

verus! {

/// A record's content at the spec level: its path and its canonical name.
pub type RecordView = (Seq<char>, Seq<char>);

/// A group's content at the spec level: a canonical name and the filenames
/// accumulated under it, in first-seen order.
pub type GroupView = (Seq<char>, Seq<Seq<char>>);

/// All catalog filenames accumulated under one canonical game name, in the
/// order the catalog listed them.
pub struct NameGroup {
    pub name: String,
    pub filenames: Vec<String>,
}

/// The views of a sequence of strings.
pub open spec fn str_views(ss: Seq<String>) -> Seq<Seq<char>> {
    ss.map_values(|s: String| s@)
}

impl View for NameGroup {
    type V = GroupView;

    open spec fn view(&self) -> GroupView {
        (self.name@, str_views(self.filenames@))
    }
}

/// The views of a sequence of records.
pub open spec fn record_views(rs: Seq<CatalogRecord>) -> Seq<RecordView> {
    rs.map_values(|r: CatalogRecord| r@)
}

/// The views of a sequence of groups.
pub open spec fn group_views(gs: Seq<NameGroup>) -> Seq<GroupView> {
    gs.map_values(|g: NameGroup| g@)
}

/// Every record's path has a final component to read a filename off.
pub open spec fn all_paths_ok(rs: Seq<RecordView>) -> bool {
    forall|i: int| 0 <= i < rs.len() ==> has_filename(rs[i].0)
}

/// Files one filename under `name`: appended to the first group carrying
/// that name, or opening a new group at the end when none does.
pub open spec fn insert_filename(gs: Seq<GroupView>, name: Seq<char>, f: Seq<char>) -> Seq<
    GroupView,
>
    decreases gs.len(),
{
    if gs.len() == 0 {
        seq![(name, seq![f])]
    } else if gs.first().0 == name {
        seq![(gs.first().0, gs.first().1.push(f))] + gs.drop_first()
    } else {
        seq![gs.first()] + insert_filename(gs.drop_first(), name, f)
    }
}

/// The groups that a record sequence yields: each record's filename filed
/// under the record's name, records taken in catalog order.
pub open spec fn groups_of(rs: Seq<RecordView>) -> Seq<GroupView>
    decreases rs.len(),
{
    if rs.len() == 0 {
        Seq::<GroupView>::empty()
    } else {
        insert_filename(groups_of(rs.drop_last()), rs.last().1, filename_spec(rs.last().0))
    }
}

/// When no group carries `name`, inserting opens a new group at the end.
pub proof fn lemma_insert_absent(gs: Seq<GroupView>, name: Seq<char>, f: Seq<char>)
    requires
        forall|k: int| 0 <= k < gs.len() ==> gs[k].0 != name,
    ensures
        insert_filename(gs, name, f) == gs.push((name, seq![f])),
    decreases gs.len(),
{
    if gs.len() == 0 {
        assert(insert_filename(gs, name, f) =~= gs.push((name, seq![f])));
    } else {
        assert(gs.first().0 == gs[0].0);
        lemma_insert_absent(gs.drop_first(), name, f);
        assert(seq![gs.first()] + gs.drop_first().push((name, seq![f])) =~= gs.push(
            (name, seq![f]),
        ));
    }
}

/// When the first group carrying `name` stands at `j`, inserting appends the
/// filename there and touches nothing else.
pub proof fn lemma_insert_found(gs: Seq<GroupView>, name: Seq<char>, f: Seq<char>, j: int)
    requires
        0 <= j < gs.len(),
        gs[j].0 == name,
        forall|k: int| 0 <= k < j ==> gs[k].0 != name,
    ensures
        insert_filename(gs, name, f) == gs.update(j, (name, gs[j].1.push(f))),
    decreases j,
{
    if j == 0 {
        assert(gs.first().0 == name);
        assert(seq![(gs.first().0, gs.first().1.push(f))] + gs.drop_first() =~= gs.update(
            0,
            (name, gs[0].1.push(f)),
        ));
    } else {
        assert(gs.first().0 == gs[0].0);
        assert(forall|k: int| 0 <= k < j - 1 ==> gs.drop_first()[k] == gs[k + 1]);
        lemma_insert_found(gs.drop_first(), name, f, j - 1);
        assert(seq![gs.first()] + gs.drop_first().update(j - 1, (name, gs.drop_first()[j - 1].1.push(f)))
            =~= gs.update(j, (name, gs[j].1.push(f))));
    }
}

/// Looks for the first group that carries `name`.
fn find_group(groups: &Vec<NameGroup>, name: &String) -> (r: Option<usize>)
    ensures
        match r {
            Some(j) => j < groups@.len() && groups@[j as int].name@ == name@ && forall|k: int|
                0 <= k < j ==> groups@[k].name@ != name@,
            None => forall|k: int| 0 <= k < groups@.len() ==> groups@[k].name@ != name@,
        },
{
    let mut j: usize = 0;
    let n = groups.len();
    while j < n
        invariant
            j <= n,
            n == groups@.len(),
            forall|k: int| 0 <= k < j ==> groups@[k].name@ != name@,
        decreases n - j,
    {
        if groups[j].name == *name {
            return Some(j);
        }
        j = j + 1;
    }
    None
}

/// Groups catalog records by canonical name: each record's filename (the
/// final component of its path) is appended to its name's group, groups
/// appearing in first-seen order. Fails on the first record whose path has
/// no final component, carrying that path back.
pub fn group(records: &Vec<CatalogRecord>) -> (r: Result<Vec<NameGroup>, DedupeError>)
    ensures
        match r {
            Ok(gs) => all_paths_ok(record_views(records@)) && group_views(gs@) == groups_of(
                record_views(records@),
            ),
            Err(DedupeError::MalformedPath { path: bad }) => !all_paths_ok(record_views(records@))
                && exists|i: int|
                {
                    &&& 0 <= i < records@.len()
                    &&& !has_filename(records@[i].path@)
                    &&& bad@ == records@[i].path@
                    &&& forall|k: int| 0 <= k < i ==> has_filename(#[trigger] records@[k].path@)
                },
        },
{
    let mut groups: Vec<NameGroup> = Vec::new();
    let n = records.len();
    let mut i: usize = 0;
    proof {
        assert(record_views(records@).take(0) =~= Seq::<RecordView>::empty());
    }
    while i < n
        invariant
            i <= n,
            n == records@.len(),
            forall|k: int| 0 <= k < i ==> has_filename(#[trigger] records@[k].path@),
            group_views(groups@) == groups_of(record_views(records@).take(i as int)),
        decreases n - i,
    {
        let ghost rs = record_views(records@);
        let ghost old_groups = groups@;
        let rec = &records[i];
        match filename_of(rec.path.as_str()) {
            Err(DedupeError::MalformedPath { path: bad }) => {
                proof {
                    let rs = record_views(records@);
                    assert(rs[i as int].0 == records@[i as int].path@);
                    assert(!has_filename(records@[i as int].path@));
                    assert(!all_paths_ok(rs));
                    assert({
                        &&& 0 <= i < records@.len()
                        &&& !has_filename(records@[i as int].path@)
                        &&& bad@ == records@[i as int].path@
                        &&& forall|k: int|
                            0 <= k < i ==> has_filename(#[trigger] records@[k].path@)
                    });
                }
                return Err(DedupeError::MalformedPath { path: bad });
            },
            Ok(fname) => {
                proof {
                    assert(rs[i as int].0 == records@[i as int].path@);
                    assert(rs[i as int].1 == records@[i as int].name@);
                    assert(rs.take(i + 1 as int).drop_last() =~= rs.take(i as int));
                    assert(rs.take(i + 1 as int).last() == rs[i as int]);
                }
                match find_group(&groups, &rec.name) {
                    Some(j) => {
                        let mut g = groups.remove(j);
                        g.filenames.push(fname);
                        let ghost g_new = g@;
                        groups.insert(j, g);
                        proof {
                            assert(str_views(old_groups[j as int].filenames@.push(fname))
                                =~= old_groups[j as int]@.1.push(fname@));
                            assert(groups@ =~= old_groups.update(j as int, groups@[j as int]));
                            lemma_insert_found(
                                group_views(old_groups),
                                rec.name@,
                                fname@,
                                j as int,
                            );
                            assert(group_views(groups@) =~= group_views(old_groups).update(
                                j as int,
                                (rec.name@, group_views(old_groups)[j as int].1.push(fname@)),
                            ));
                        }
                    },
                    None => {
                        let mut fs: Vec<String> = Vec::new();
                        fs.push(fname);
                        let g = NameGroup { name: rec.name.clone(), filenames: fs };
                        groups.push(g);
                        proof {
                            assert(str_views(Seq::<String>::empty().push(fname)) =~= seq![fname@]);
                            lemma_insert_absent(group_views(old_groups), rec.name@, fname@);
                            assert(group_views(groups@) =~= group_views(old_groups).push(
                                (rec.name@, seq![fname@]),
                            ));
                        }
                    },
                }
            },
        }
        i = i + 1;
    }
    proof {
        assert(record_views(records@).take(n as int) =~= record_views(records@));
    }
    Ok(groups)
}

/// The filenames the catalog lists under `name`, in catalog order: the
/// records whose name is `name`, each contributing its path's final
/// component, duplicates included.
pub open spec fn filenames_for(rs: Seq<RecordView>, name: Seq<char>) -> Seq<Seq<char>>
    decreases rs.len(),
{
    if rs.len() == 0 {
        Seq::<Seq<char>>::empty()
    } else {
        let rest = filenames_for(rs.drop_last(), name);
        if rs.last().1 == name {
            rest.push(filename_spec(rs.last().0))
        } else {
            rest
        }
    }
}

/// No two groups carry the same canonical name.
pub open spec fn distinct_names(gs: Seq<GroupView>) -> bool {
    forall|j: int, k: int| 0 <= j < k < gs.len() ==> gs[j].0 != gs[k].0
}

/// What the groups of a record sequence hold: each canonical name appears
/// in at most one group; a group for `name` exists exactly when some record
/// carries that name; and that group lists exactly the filenames the
/// catalog lists under `name`, in catalog order.
pub proof fn lemma_groups_characterize(rs: Seq<RecordView>)
    ensures
        distinct_names(groups_of(rs)),
        forall|name: Seq<char>|
            (exists|j: int| 0 <= j < groups_of(rs).len() && groups_of(rs)[j].0 == name)
                <==> #[trigger] filenames_for(rs, name).len() > 0,
        forall|name: Seq<char>, j: int|
            #![trigger groups_of(rs)[j], filenames_for(rs, name)]
            0 <= j < groups_of(rs).len() && groups_of(rs)[j].0 == name ==> groups_of(rs)[j].1
                == filenames_for(rs, name),
    decreases rs.len(),
{
    if rs.len() == 0 {
    } else {
        let rs0 = rs.drop_last();
        let r = rs.last();
        let f = filename_spec(r.0);
        let gs0 = groups_of(rs0);
        let gs = groups_of(rs);
        lemma_groups_characterize(rs0);
        if exists|j0: int| 0 <= j0 < gs0.len() && gs0[j0].0 == r.1 {
            let j0 = choose|j0: int| 0 <= j0 < gs0.len() && gs0[j0].0 == r.1;
            assert(forall|k: int| 0 <= k < j0 ==> gs0[k].0 != r.1);
            lemma_insert_found(gs0, r.1, f, j0);
            assert(gs == gs0.update(j0, (r.1, gs0[j0].1.push(f))));
            assert(distinct_names(gs));
            assert forall|name: Seq<char>|
                (exists|j: int| 0 <= j < gs.len() && gs[j].0 == name)
                    <==> #[trigger] filenames_for(rs, name).len() > 0 by {
                if name == r.1 {
                    assert(gs[j0].0 == name);
                    assert(filenames_for(rs, name) == filenames_for(rs0, name).push(f));
                } else {
                    assert(filenames_for(rs, name) == filenames_for(rs0, name));
                    assert(forall|j: int|
                        0 <= j < gs.len() && gs[j].0 == name ==> gs0[j] == gs[j]);
                    assert(forall|j: int|
                        0 <= j < gs0.len() && gs0[j].0 == name ==> gs[j] == gs0[j]);
                }
            }
            assert forall|name: Seq<char>, j: int|
                #![trigger gs[j], filenames_for(rs, name)]
                0 <= j < gs.len() && gs[j].0 == name implies gs[j].1 == filenames_for(
                rs,
                name,
            ) by {
                if j == j0 {
                    assert(name == r.1);
                    assert(gs[j].1 == gs0[j0].1.push(f));
                    assert(gs0[j0].1 == filenames_for(rs0, name));
                    assert(filenames_for(rs, name) == filenames_for(rs0, name).push(f));
                } else {
                    assert(gs[j] == gs0[j]);
                    assert(name != r.1);
                    assert(filenames_for(rs, name) == filenames_for(rs0, name));
                }
            }
        } else {
            lemma_insert_absent(gs0, r.1, f);
            assert(gs == gs0.push((r.1, seq![f])));
            assert(filenames_for(rs0, r.1).len() == 0);
            assert(distinct_names(gs));
            assert forall|name: Seq<char>|
                (exists|j: int| 0 <= j < gs.len() && gs[j].0 == name)
                    <==> #[trigger] filenames_for(rs, name).len() > 0 by {
                if name == r.1 {
                    assert(gs[gs.len() - 1].0 == name);
                    assert(filenames_for(rs, name) == filenames_for(rs0, name).push(f));
                } else {
                    assert(filenames_for(rs, name) == filenames_for(rs0, name));
                    assert(forall|j: int|
                        0 <= j < gs.len() && gs[j].0 == name ==> 0 <= j < gs0.len() && gs0[j]
                            == gs[j]);
                    assert(forall|j: int|
                        0 <= j < gs0.len() && gs0[j].0 == name ==> gs[j] == gs0[j]);
                }
            }
            assert forall|name: Seq<char>, j: int|
                #![trigger gs[j], filenames_for(rs, name)]
                0 <= j < gs.len() && gs[j].0 == name implies gs[j].1 == filenames_for(
                rs,
                name,
            ) by {
                if j == gs.len() - 1 {
                    assert(name == r.1);
                    assert(gs[j].1 == seq![f]);
                    assert(filenames_for(rs, name) == filenames_for(rs0, name).push(f));
                    assert(filenames_for(rs0, name) =~= Seq::<Seq<char>>::empty());
                    assert(Seq::<Seq<char>>::empty().push(f) =~= seq![f]);
                } else {
                    assert(gs[j] == gs0[j]);
                    assert(name != r.1);
                    assert(filenames_for(rs, name) == filenames_for(rs0, name));
                }
            }
        }
    }
}

/// Grouping is a pure function of the catalog: two grouping passes over the
/// same records yield the same groups, however often they run.
pub proof fn lemma_group_deterministic(
    rs: Seq<RecordView>,
    gs1: Seq<GroupView>,
    gs2: Seq<GroupView>,
)
    requires
        gs1 == groups_of(rs),
        gs2 == groups_of(rs),
    ensures
        gs1 == gs2,
{
}

} // verus!
