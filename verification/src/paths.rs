use vstd::prelude::*;

use crate::catalog::DedupeError;

verus! {

/// `p` with every trailing '/' removed.
pub open spec fn stripped(p: Seq<char>) -> Seq<char>
    decreases p.len(),
{
    if p.len() > 0 && p.last() == '/' {
        stripped(p.drop_last())
    } else {
        p
    }
}

/// The characters of `p` that follow its last '/'; all of `p` when it has
/// none, empty when `p` ends with one.
pub open spec fn after_last_slash(p: Seq<char>) -> Seq<char>
    decreases p.len(),
{
    if p.len() == 0 {
        Seq::<char>::empty()
    } else if p.last() == '/' {
        Seq::<char>::empty()
    } else {
        after_last_slash(p.drop_last()).push(p.last())
    }
}

/// Whether a path has a final component: something is left of it once
/// trailing separators are gone.
pub open spec fn has_filename(p: Seq<char>) -> bool {
    stripped(p).len() > 0
}

/// The final component of a path: what follows the last '/' once trailing
/// separators are gone. Empty exactly when the path has no final component.
pub open spec fn filename_spec(p: Seq<char>) -> Seq<char> {
    after_last_slash(stripped(p))
}

/// What joining a directory with a filename yields: the directory, a '/'
/// unless the directory already ends with one or is empty, then the filename.
pub open spec fn join_spec(dir: Seq<char>, file: Seq<char>) -> Seq<char> {
    if dir.len() == 0 {
        file
    } else if dir.last() == '/' {
        dir + file
    } else {
        dir + seq!['/'] + file
    }
}

proof fn lemma_stripped_no_trailing_slash(p: Seq<char>)
    ensures
        stripped(p).len() > 0 ==> stripped(p).last() != '/',
    decreases p.len(),
{
    if p.len() > 0 && p.last() == '/' {
        lemma_stripped_no_trailing_slash(p.drop_last());
    }
}

proof fn lemma_after_last_slash_no_slash(p: Seq<char>)
    ensures
        forall|i: int| 0 <= i < after_last_slash(p).len() ==> after_last_slash(p)[i] != '/',
        p.len() > 0 && p.last() != '/' ==> after_last_slash(p).len() > 0,
    decreases p.len(),
{
    if p.len() == 0 {
    } else if p.last() == '/' {
    } else {
        lemma_after_last_slash_no_slash(p.drop_last());
        let r = after_last_slash(p);
        let rest = after_last_slash(p.drop_last());
        assert(r == rest.push(p.last()));
        assert forall|i: int| 0 <= i < r.len() implies r[i] != '/' by {
            if i < rest.len() {
                assert(r[i] == rest[i]);
            } else {
                assert(r[i] == p.last());
            }
        }
    }
}

/// A filename read off a well-formed path is never empty and never holds a
/// separator.
pub proof fn lemma_filename_well_formed(p: Seq<char>)
    requires
        has_filename(p),
    ensures
        filename_spec(p).len() > 0,
        forall|i: int| 0 <= i < filename_spec(p).len() ==> filename_spec(p)[i] != '/',
{
    lemma_stripped_no_trailing_slash(p);
    lemma_after_last_slash_no_slash(stripped(p));
}

proof fn lemma_after_last_slash_append(s: Seq<char>, f: Seq<char>)
    requires
        forall|i: int| 0 <= i < f.len() ==> f[i] != '/',
    ensures
        after_last_slash(s + f) == after_last_slash(s) + f,
    decreases f.len(),
{
    if f.len() == 0 {
        assert(s + f =~= s);
        assert(after_last_slash(s) + f =~= after_last_slash(s));
    } else {
        lemma_after_last_slash_append(s, f.drop_last());
        assert((s + f).drop_last() =~= s + f.drop_last());
        assert((s + f).last() == f.last());
        assert(after_last_slash(s + f) =~= after_last_slash(s) + f);
    }
}

/// Joining a directory with a separator-free, non-empty filename and reading
/// the filename back off the joined path returns that same filename,
/// whatever the directory was.
pub proof fn lemma_filename_of_join(dir: Seq<char>, file: Seq<char>)
    requires
        file.len() > 0,
        forall|i: int| 0 <= i < file.len() ==> file[i] != '/',
    ensures
        has_filename(join_spec(dir, file)),
        filename_spec(join_spec(dir, file)) == file,
{
    let j = join_spec(dir, file);
    assert(j.last() == file.last());
    assert(stripped(j) == j);
    if dir.len() == 0 {
        assert(j == file);
        lemma_after_last_slash_append(Seq::<char>::empty(), file);
        assert(Seq::<char>::empty() + file =~= file);
        assert(after_last_slash(Seq::<char>::empty()) + file =~= file);
    } else if dir.last() == '/' {
        lemma_after_last_slash_append(dir, file);
        assert(after_last_slash(dir) =~= Seq::<char>::empty());
        assert(after_last_slash(dir) + file =~= file);
    } else {
        let d = dir + seq!['/'];
        assert(j == d + file);
        lemma_after_last_slash_append(d, file);
        assert(d.last() == '/');
        assert(after_last_slash(d) =~= Seq::<char>::empty());
        assert(after_last_slash(d) + file =~= file);
    }
}

/// Extracts the ROM filename from a catalog path: the text after the last
/// '/' once trailing separators are dropped. Fails exactly when nothing is
/// left, i.e. the path has no final component.
pub fn filename_of(path: &str) -> (r: Result<String, DedupeError>)
    ensures
        match r {
            Ok(f) => has_filename(path@) && f@ == filename_spec(path@),
            Err(DedupeError::MalformedPath { path: bad }) => !has_filename(path@) && bad@
                == path@,
        },
{
    let len = path.unicode_len();
    let mut end = len;
    proof {
        assert(path@.take(len as int) =~= path@);
    }
    while end > 0 && path.get_char(end - 1) == '/'
        invariant
            end <= len,
            len == path@.len(),
            stripped(path@) == stripped(path@.take(end as int)),
        decreases end,
    {
        proof {
            assert(path@.take(end as int).drop_last() =~= path@.take(end - 1 as int));
        }
        end = end - 1;
    }
    proof {
        assert(stripped(path@.take(end as int)) == path@.take(end as int));
    }
    if end == 0 {
        proof {
            assert(path@.take(0) =~= Seq::<char>::empty());
        }
        return Err(DedupeError::MalformedPath { path: path.to_owned() });
    }
    let mut start = end;
    proof {
        assert(after_last_slash(path@.take(end as int)) =~= after_last_slash(
            path@.take(end as int),
        ) + path@.subrange(end as int, end as int));
    }
    while start > 0 && path.get_char(start - 1) != '/'
        invariant
            start <= end <= len,
            len == path@.len(),
            after_last_slash(path@.take(end as int)) == after_last_slash(
                path@.take(start as int),
            ) + path@.subrange(start as int, end as int),
        decreases start,
    {
        proof {
            let p = path@;
            let t = p.take(start as int);
            assert(t.drop_last() =~= p.take(start - 1 as int));
            assert(t.last() == p[start - 1]);
            assert(after_last_slash(p.take(start - 1 as int)).push(p[start - 1]) + p.subrange(
                start as int,
                end as int,
            ) =~= after_last_slash(p.take(start - 1 as int)) + p.subrange(
                start - 1 as int,
                end as int,
            ));
        }
        start = start - 1;
    }
    proof {
        let p = path@;
        assert(after_last_slash(p.take(start as int)) =~= Seq::<char>::empty());
        assert(Seq::<char>::empty() + p.subrange(start as int, end as int) =~= p.subrange(
            start as int,
            end as int,
        ));
    }
    let fname = path.substring_char(start, end);
    Ok(fname.to_owned())
}

/// Joins a directory with a filename, adding a '/' separator unless the
/// directory is empty or already ends with one.
pub fn join_path(dir: &str, file: &str) -> (r: String)
    ensures
        r@ == join_spec(dir@, file@),
{
    let n = dir.unicode_len();
    if n == 0 {
        file.to_owned()
    } else if dir.get_char(n - 1) == '/' {
        let mut s = dir.to_owned();
        s.append(file);
        s
    } else {
        let mut s = dir.to_owned();
        s.append("/");
        s.append(file);
        proof {
            reveal_strlit("/");
            assert(("/")@ =~= seq!['/']);
            assert(dir@ + ("/")@ + file@ =~= dir@ + seq!['/'] + file@);
        }
        s
    }
}

} // verus!
