use vstd::prelude::*;

verus! {

/// The whitespace the prompt ignores around the operator's answer: blanks
/// and the line-ending control characters.
pub open spec fn is_space_char(c: char) -> bool {
    c == ' ' || c == '\t' || c == '\n' || c == '\r' || c == '\u{b}' || c == '\u{c}'
}

/// `s` with trailing whitespace removed.
pub open spec fn trim_end_spec(s: Seq<char>) -> Seq<char>
    decreases s.len(),
{
    if s.len() > 0 && is_space_char(s.last()) {
        trim_end_spec(s.drop_last())
    } else {
        s
    }
}

/// `s` with leading whitespace removed.
pub open spec fn trim_start_spec(s: Seq<char>) -> Seq<char>
    decreases s.len(),
{
    if s.len() > 0 && is_space_char(s.first()) {
        trim_start_spec(s.drop_first())
    } else {
        s
    }
}

/// `s` with surrounding whitespace removed.
pub open spec fn trimmed(s: Seq<char>) -> Seq<char> {
    trim_start_spec(trim_end_spec(s))
}

/// A decimal digit.
pub open spec fn is_digit(c: char) -> bool {
    '0' as u32 <= c as u32 && c as u32 <= '9' as u32
}

/// The number the digit string `s` writes out in decimal.
pub open spec fn digits_val(s: Seq<char>) -> int
    decreases s.len(),
{
    if s.len() == 0 {
        0
    } else {
        digits_val(s.drop_last()) * 10 + (s.last() as u32 - '0' as u32)
    }
}

pub open spec fn all_digits(s: Seq<char>) -> bool {
    forall|i: int| 0 <= i < s.len() ==> is_digit(s[i])
}

/// The digits of a choice once an optional leading '+' sign is dropped.
pub open spec fn numeric_part(s: Seq<char>) -> Seq<char> {
    if s.len() > 0 && s.first() == '+' {
        s.drop_first()
    } else {
        s
    }
}

/// Whether the trimmed line is an unsigned decimal the machine can hold: at
/// least one digit after the optional sign, nothing else, and a value no
/// larger than `usize::MAX`.
pub open spec fn valid_choice_str(s: Seq<char>) -> bool {
    numeric_part(s).len() > 0 && all_digits(numeric_part(s)) && digits_val(numeric_part(s))
        <= usize::MAX
}

/// What one line of operator input means: the number it writes out, or the
/// default choice 1 when it is empty or not a number.
pub open spec fn choice_spec(line: Seq<char>) -> int {
    if valid_choice_str(trimmed(line)) {
        digits_val(numeric_part(trimmed(line)))
    } else {
        1
    }
}

proof fn lemma_digits_val_nonneg(s: Seq<char>)
    requires
        all_digits(s),
    ensures
        digits_val(s) >= 0,
    decreases s.len(),
{
    if s.len() > 0 {
        assert(all_digits(s.drop_last()));
        lemma_digits_val_nonneg(s.drop_last());
    }
}

/// Reading more digits never shrinks the value: any prefix of a digit
/// string writes out at most the whole string's number.
proof fn lemma_digits_val_monotone(s: Seq<char>, k: int)
    requires
        all_digits(s),
        0 <= k <= s.len(),
    ensures
        digits_val(s.take(k)) <= digits_val(s),
    decreases s.len(),
{
    if k == s.len() {
        assert(s.take(k) =~= s);
    } else {
        assert(all_digits(s.drop_last()));
        assert(s.take(k) =~= s.drop_last().take(k));
        lemma_digits_val_monotone(s.drop_last(), k);
        lemma_digits_val_nonneg(s.drop_last());
        assert(s.last() as u32 - '0' as u32 >= 0);
    }
}

fn is_space(c: char) -> (r: bool)
    ensures
        r == is_space_char(c),
{
    c == ' ' || c == '\t' || c == '\n' || c == '\r' || c == '\u{b}' || c == '\u{c}'
}

/// Reads the operator's answer to the keep prompt: the line is trimmed and
/// parsed as an unsigned decimal; an empty or non-numeric line (or one too
/// large for the machine) silently falls back to the default choice 1.
pub fn parse_choice(line: &str) -> (c: usize)
    ensures
        c as int == choice_spec(line@),
{
    let len = line.unicode_len();
    let mut end = len;
    proof {
        assert(line@.take(len as int) =~= line@);
    }
    while end > 0 && is_space(line.get_char(end - 1))
        invariant
            end <= len,
            len == line@.len(),
            trim_end_spec(line@) == trim_end_spec(line@.take(end as int)),
        decreases end,
    {
        proof {
            assert(line@.take(end as int).drop_last() =~= line@.take(end - 1 as int));
        }
        end = end - 1;
    }
    proof {
        assert(trim_end_spec(line@) == line@.take(end as int));
    }
    let ghost t = line@.take(end as int);
    let mut start: usize = 0;
    proof {
        assert(t.skip(0) =~= t);
    }
    while start < end && is_space(line.get_char(start))
        invariant
            start <= end <= len,
            len == line@.len(),
            t == line@.take(end as int),
            trim_start_spec(t) == trim_start_spec(t.skip(start as int)),
        decreases end - start,
    {
        proof {
            assert(t.skip(start as int).drop_first() =~= t.skip(start + 1 as int));
            assert(t.skip(start as int).first() == line@[start as int]);
        }
        start = start + 1;
    }
    proof {
        assert(trim_start_spec(t) == t.skip(start as int));
        assert(t.skip(start as int) =~= line@.subrange(start as int, end as int));
        assert(trimmed(line@) == line@.subrange(start as int, end as int));
    }
    let ghost tr = line@.subrange(start as int, end as int);
    if start == end {
        // an empty answer: keep the first entry
        return 1;
    }
    let mut pos = start;
    if line.get_char(pos) == '+' {
        proof {
            assert(tr.first() == line@[start as int]);
            assert(tr.drop_first() =~= line@.subrange(start + 1 as int, end as int));
        }
        pos = pos + 1;
    } else {
        proof {
            assert(numeric_part(tr) == tr);
        }
    }
    let ghost np = line@.subrange(pos as int, end as int);
    proof {
        assert(numeric_part(tr) == np);
    }
    if pos == end {
        // a bare sign carries no digits
        return 1;
    }
    let mut acc: usize = 0;
    let mut i = pos;
    proof {
        assert(np.take(0) =~= Seq::<char>::empty());
    }
    while i < end
        invariant
            pos <= i <= end <= len,
            len == line@.len(),
            np == line@.subrange(pos as int, end as int),
            valid_choice_str(trimmed(line@)) == (all_digits(np) && digits_val(np) <= usize::MAX),
            choice_spec(line@) == (if all_digits(np) && digits_val(np) <= usize::MAX {
                digits_val(np)
            } else {
                1
            }),
            all_digits(np.take(i - pos as int)),
            acc as int == digits_val(np.take(i - pos as int)),
        decreases end - i,
    {
        let c = line.get_char(i);
        let u = c as u32;
        proof {
            assert(np[i - pos as int] == line@[i as int]);
            assert(np.take(i + 1 - pos as int).drop_last() =~= np.take(i - pos as int));
            assert(np.take(i + 1 - pos as int).last() == line@[i as int]);
        }
        if u < '0' as u32 || u > '9' as u32 {
            proof {
                assert(!is_digit(np[i - pos as int]));
                assert(!all_digits(np));
            }
            return 1;
        }
        let d = (u - '0' as u32) as usize;
        let cap = usize::MAX / 10;
        if acc > cap {
            proof {
                assert(acc * 10 > usize::MAX) by {
                    assert(acc >= cap + 1);
                    assert((cap + 1) * 10 > usize::MAX);
                };
                assert(digits_val(np.take(i + 1 - pos as int)) > usize::MAX);
                if all_digits(np) {
                    lemma_digits_val_monotone(np, i + 1 - pos as int);
                }
            }
            return 1;
        }
        let acc10 = acc * 10;
        if d > usize::MAX - acc10 {
            proof {
                assert(digits_val(np.take(i + 1 - pos as int)) > usize::MAX);
                if all_digits(np) {
                    lemma_digits_val_monotone(np, i + 1 - pos as int);
                }
            }
            return 1;
        }
        acc = acc10 + d;
        i = i + 1;
    }
    proof {
        assert(np.take(end - pos as int) =~= np);
    }
    acc
}

} // verus!
