//! The substitution-list file format: one pair per line, `find,replace`,
//! split at the first comma on the line; lines without a comma are silently
//! skipped, and a comma can therefore never be part of `find`.  Lines end at
//! a newline, with a carriage return directly before the newline stripped;
//! the last line needs no newline.

use vstd::prelude::*;

use crate::text::{chars_vec, string_from_chars};
use crate::subst::pairs_view;

verus! {

/// The index of the first occurrence of `c` in `s`, or the length of `s`
/// when `c` does not occur.
pub open spec fn find_char(s: Seq<char>, c: char) -> int
    decreases s.len(),
{
    if s.len() == 0 {
        0
    } else if s[0] == c {
        0
    } else {
        1 + find_char(s.drop_first(), c)
    }
}

/// A line with a carriage return at its end stripped of it.
pub open spec fn chomp_cr(l: Seq<char>) -> Seq<char> {
    if l.len() > 0 && l.last() == '\r' {
        l.drop_last()
    } else {
        l
    }
}

/// The pair a single line yields: the text before its first comma and the
/// text after it, or nothing when the line has no comma.
pub open spec fn pair_of_line(l: Seq<char>) -> Option<(Seq<char>, Seq<char>)> {
    let i = find_char(l, ',');
    if 0 <= i < l.len() {
        Some((l.take(i), l.skip(i + 1)))
    } else {
        None
    }
}

/// A possible pair put in front of a pair list.
pub open spec fn prepend_pair(
    p: Option<(Seq<char>, Seq<char>)>,
    rest: Seq<(Seq<char>, Seq<char>)>,
) -> Seq<(Seq<char>, Seq<char>)> {
    match p {
        Some(q) => seq![q] + rest,
        None => rest,
    }
}

/// The ordered pairs a whole replacements file yields: the text is split at
/// newlines, a carriage return directly before a newline is stripped, the
/// final line needs no newline, and each line contributes [`pair_of_line`].
pub open spec fn replacements_of(s: Seq<char>) -> Seq<(Seq<char>, Seq<char>)>
    decreases s.len(),
{
    if s.len() == 0 {
        Seq::empty()
    } else {
        let i = find_char(s, '\n');
        if 0 <= i < s.len() {
            prepend_pair(pair_of_line(chomp_cr(s.take(i))), replacements_of(s.skip(i + 1)))
        } else {
            prepend_pair(pair_of_line(s), Seq::empty())
        }
    }
}

/// A position that nothing before matches and that holds `c` (unless it is
/// the length) is exactly [`find_char`].
proof fn lemma_find_char_is(s: Seq<char>, c: char, r: int)
    requires
        0 <= r <= s.len(),
        forall|j: int| 0 <= j < r ==> s[j] != c,
        r < s.len() ==> s[r] == c,
    ensures
        find_char(s, c) == r,
    decreases s.len(),
{
    if s.len() == 0 {
    } else if s[0] == c {
        assert(r == 0);
    } else {
        assert(r >= 1);
        let d = s.drop_first();
        assert(forall|j: int| 0 <= j < r - 1 ==> d[j] != c);
        lemma_find_char_is(d, c, r - 1);
    }
}

/// The position of the first occurrence of `c` at or after `from`, or the
/// buffer length when there is none.
fn find_char_in(chars: &Vec<char>, from: usize, c: char) -> (r: usize)
    requires
        from <= chars@.len(),
    ensures
        from <= r <= chars@.len(),
        forall|j: int| from <= j < r ==> chars@[j] != c,
        r < chars@.len() ==> chars@[r as int] == c,
{
    let mut j: usize = from;
    while j < chars.len()
        invariant
            from <= j <= chars@.len(),
            forall|t: int| from <= t < j ==> chars@[t] != c,
        decreases chars@.len() - j,
    {
        if chars[j] == c {
            return j;
        }
        j = j + 1;
    }
    j
}

/// The characters of the range `[a, b)`, as a new buffer.
fn sub_vec(chars: &Vec<char>, a: usize, b: usize) -> (r: Vec<char>)
    requires
        a <= b <= chars@.len(),
    ensures
        r@ == chars@.subrange(a as int, b as int),
{
    let mut r: Vec<char> = Vec::new();
    let mut t: usize = a;
    while t < b
        invariant
            a <= t <= b <= chars@.len(),
            r@ == chars@.subrange(a as int, t as int),
        decreases b - t,
    {
        proof {
            assert(chars@.subrange(a as int, t + 1) =~= chars@.subrange(a as int, t as int).push(
                chars@[t as int],
            ));
        }
        r.push(chars[t]);
        t = t + 1;
    }
    r
}

/// Reads a replacements file's text into the ordered pair list it describes:
/// one pair per line, split at the line's first comma, lines without a comma
/// skipped.
pub fn parse_replacements(content: &str) -> (r: Vec<(String, String)>)
    ensures
        pairs_view(r@) == replacements_of(content@),
{
    let chars = chars_vec(content);
    let n = chars.len();
    let mut out: Vec<(String, String)> = Vec::new();
    let mut pos: usize = 0;
    proof {
        assert(chars@.skip(0) =~= chars@);
        assert(pairs_view(out@) + replacements_of(chars@) =~= replacements_of(content@));
    }
    while pos < n
        invariant
            chars@ == content@,
            n == chars@.len(),
            pos <= n,
            pairs_view(out@) + replacements_of(chars@.skip(pos as int)) == replacements_of(
                content@,
            ),
        decreases n - pos,
    {
        let ghost rest = chars@.skip(pos as int);
        let ghost out_at_start = out@;
        let nl = find_char_in(&chars, pos, '\n');
        proof {
            assert(forall|j: int| 0 <= j < nl - pos ==> rest[j] != '\n');
            lemma_find_char_is(rest, '\n', nl - pos);
        }
        let line_end: usize = if nl < n && nl > pos && chars[nl - 1] == '\r' {
            nl - 1
        } else {
            nl
        };
        let line = sub_vec(&chars, pos, line_end);
        proof {
            if nl < n {
                assert(rest.take(nl - pos) =~= chars@.subrange(pos as int, nl as int));
                if nl > pos && chars@[nl - 1] == '\r' {
                    assert(rest.take(nl - pos).drop_last() =~= chars@.subrange(
                        pos as int,
                        nl - 1,
                    ));
                    assert(chomp_cr(rest.take(nl - pos)) == line@);
                } else {
                    assert(chomp_cr(rest.take(nl - pos)) == line@);
                }
            } else {
                assert(rest =~= chars@.subrange(pos as int, n as int));
                assert(line@ == rest);
            }
        }
        let cm = find_char_in(&line, 0, ',');
        proof {
            lemma_find_char_is(line@, ',', cm as int);
        }
        if cm < line.len() {
            let fpart = sub_vec(&line, 0, cm);
            let rpart = sub_vec(&line, cm + 1, line.len());
            proof {
                assert(fpart@ =~= line@.take(cm as int));
                assert(rpart@ =~= line@.skip(cm + 1));
            }
            let fs = string_from_chars(&fpart);
            let rs = string_from_chars(&rpart);
            out.push((fs, rs));
            proof {
                assert(pairs_view(out@) =~= pairs_view(out_at_start) + seq![(fs@, rs@)]);
                assert(pair_of_line(line@) == Some((fs@, rs@)));
            }
        } else {
            proof {
                assert(pair_of_line(line@) is None);
            }
        }
        proof {
            let ghost tail = if nl < n {
                chars@.skip(nl + 1)
            } else {
                chars@.skip(n as int)
            };
            if nl < n {
                assert(rest.skip(nl - pos + 1) =~= chars@.skip(nl + 1));
                assert(replacements_of(rest) == prepend_pair(pair_of_line(line@), replacements_of(tail)));
            } else {
                assert(chars@.skip(n as int) =~= Seq::<char>::empty());
                assert(replacements_of(tail) == Seq::<(Seq<char>, Seq<char>)>::empty());
                assert(replacements_of(rest) == prepend_pair(
                    pair_of_line(line@),
                    replacements_of(tail),
                ));
            }
            match pair_of_line(line@) {
                Some(q) => {
                    assert(pairs_view(out_at_start) + (seq![q] + replacements_of(tail)) =~= pairs_view(
                        out@,
                    ) + replacements_of(tail));
                },
                None => {
                    assert(out@ == out_at_start);
                },
            }
        }
        pos = if nl < n {
            nl + 1
        } else {
            n
        };
    }
    proof {
        assert(chars@.skip(n as int) =~= Seq::<char>::empty());
        assert(pairs_view(out@) + Seq::<(Seq<char>, Seq<char>)>::empty() =~= pairs_view(out@));
    }
    out
}

} // verus!
