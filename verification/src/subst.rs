//! The substitution engine: ordered literal find/replace pairs applied to a
//! text buffer.
//!
//! Each pair is applied exhaustively: the leftmost occurrence of `find` is
//! replaced and the search restarts from the beginning of the mutated text,
//! until no occurrence remains; only then does the next pair get its turn, so
//! it sees the previous pair's output.  One replacement is the relation
//! [`step`], a finished pair is [`fully_applied`], and a whole list is
//! [`all_applied`].
//!
//! Restarting the search in text that the replacement itself keeps feeding is
//! an infinite-loop hazard: a pair whose replacement contains its own pattern,
//! applied to text containing the pattern, can never finish, which
//! [`lemma_self_feeding_pair_never_clears`] proves.  Since every function here
//! must terminate, [`terminating_pair`] names the pairs accepted: the
//! replacement is shorter than the pattern, or neither contains the pattern
//! nor can recreate it across a seam ([`seam_free`]).

use vstd::prelude::*;

use crate::text::{chars_vec, string_from_chars};

verus! {

/// The pattern occurs in the text at position `i`.
pub open spec fn is_match_at(text: Seq<char>, pat: Seq<char>, i: int) -> bool {
    &&& 0 <= i
    &&& i + pat.len() <= text.len()
    &&& text.subrange(i, i + pat.len()) == pat
}

/// The pattern occurs somewhere in the text.
pub open spec fn has_match(text: Seq<char>, pat: Seq<char>) -> bool {
    exists|i: int| is_match_at(text, pat, i)
}

/// The text with the range `[i, i + plen)` replaced by `rep`.
pub open spec fn spliced(text: Seq<char>, i: int, plen: int, rep: Seq<char>) -> Seq<char> {
    text.subrange(0, i) + rep + text.subrange(i + plen, text.len() as int)
}

/// One replacement: the leftmost occurrence of `find` in `a` is replaced by
/// `rep`, giving `b`.
pub open spec fn step(find: Seq<char>, rep: Seq<char>, a: Seq<char>, b: Seq<char>) -> bool {
    exists|i: int|
        {
            &&& is_match_at(a, find, i)
            &&& (forall|j: int| 0 <= j < i ==> !is_match_at(a, find, j))
            &&& b == spliced(a, i, find.len() as int, rep)
        }
}

/// `b` arises from `a` by exactly `n` leftmost replacements of `find`.
pub open spec fn steps_to(find: Seq<char>, rep: Seq<char>, a: Seq<char>, b: Seq<char>, n: nat) -> bool
    decreases n,
{
    if n == 0 {
        a == b
    } else {
        exists|m: Seq<char>| step(find, rep, a, m) && steps_to(find, rep, m, b, (n - 1) as nat)
    }
}

/// One pair taken to completion: some number of leftmost replacements leads
/// from `a` to `b`, and `b` has no occurrence of `find` left.
pub open spec fn fully_applied(find: Seq<char>, rep: Seq<char>, a: Seq<char>, b: Seq<char>) -> bool {
    &&& exists|n: nat| steps_to(find, rep, a, b, n)
    &&& !has_match(b, find)
}

/// The pair list applied in order through the given intermediate texts:
/// `texts` starts at `a`, ends at `b`, and each pair, taken in list order, is
/// fully applied to the text the previous pairs produced.
pub open spec fn chain_applied(
    pairs: Seq<(Seq<char>, Seq<char>)>,
    texts: Seq<Seq<char>>,
    a: Seq<char>,
    b: Seq<char>,
) -> bool {
    &&& texts.len() == pairs.len() + 1
    &&& texts[0] == a
    &&& texts[pairs.len() as int] == b
    &&& (forall|k: int|
        0 <= k < pairs.len() ==> #[trigger] fully_applied(
            pairs[k].0,
            pairs[k].1,
            texts[k],
            texts[k + 1],
        ))
}

/// The whole pair list applied in order, each pair to completion, so that
/// each pair works on the previous pair's output.
pub open spec fn all_applied(pairs: Seq<(Seq<char>, Seq<char>)>, a: Seq<char>, b: Seq<char>) -> bool {
    exists|texts: Seq<Seq<char>>| #[trigger] chain_applied(pairs, texts, a, b)
}

/// The character sequences of a list of string pairs.
pub open spec fn pairs_view(pairs: Seq<(String, String)>) -> Seq<(Seq<char>, Seq<char>)> {
    pairs.map_values(|p: (String, String)| (p.0@, p.1@))
}

/// No seam between the replacement and the surrounding text can recreate
/// the pattern: no nonempty suffix of the replacement is a prefix of the
/// pattern, and no nonempty prefix of the replacement is a suffix of the
/// pattern.
pub open spec fn seam_free(find: Seq<char>, rep: Seq<char>) -> bool {
    &&& (forall|k: int|
        1 <= k < find.len() && k <= rep.len() ==> #[trigger] rep.subrange(
            rep.len() - k,
            rep.len() as int,
        ) != find.subrange(0, k))
    &&& (forall|k: int|
        1 <= k < find.len() && k <= rep.len() ==> #[trigger] rep.subrange(0, k) != find.subrange(
            find.len() - k,
            find.len() as int,
        ))
}

/// The pairs this engine accepts: a non-empty pattern whose replacement
/// either shrinks the text, or neither contains the pattern nor can recreate
/// it across a seam.  Both make exhaustive replacement provably terminate —
/// the text shrinks, or the number of occurrences falls — while an empty
/// pattern, or a replacement that can feed the pattern back into the text,
/// could search forever.
pub open spec fn terminating_pair(find: Seq<char>, rep: Seq<char>) -> bool {
    &&& find.len() > 0
    &&& (rep.len() < find.len() || (!has_match(rep, find) && seam_free(find, rep)))
}

/// Every pair of the list is one the engine accepts.
pub open spec fn terminating_pairs(pairs: Seq<(String, String)>) -> bool {
    forall|k: int| 0 <= k < pairs.len() ==> terminating_pair(#[trigger] pairs[k].0@, pairs[k].1@)
}

/// The position of the leftmost occurrence of `pat` at or after `i`, or the
/// text length when there is none.
pub open spec fn first_match_from(text: Seq<char>, pat: Seq<char>, i: int) -> int
    decreases text.len() - i + 1
        when 0 <= i
{
    if i + pat.len() > text.len() {
        text.len() as int
    } else if is_match_at(text, pat, i) {
        i
    } else {
        first_match_from(text, pat, i + 1)
    }
}

/// What makes each pass of the replacement loop smaller: the text length for
/// a shrinking pair, otherwise the distance from the leftmost occurrence to
/// the end of the text.
pub open spec fn apply_measure(find: Seq<char>, rep: Seq<char>, text: Seq<char>) -> int {
    if rep.len() < find.len() {
        text.len() as int
    } else {
        text.len() - first_match_from(text, find, 0)
    }
}

/// Everything [`first_match_from`] returns is first: it lies between `i` and
/// the text length, nothing before it matches, and anything short of the text
/// length is itself a match.
proof fn lemma_first_match_props(text: Seq<char>, pat: Seq<char>, i: int)
    requires
        0 <= i <= text.len(),
        pat.len() > 0,
    ensures
        i <= first_match_from(text, pat, i) <= text.len(),
        forall|j: int| i <= j < first_match_from(text, pat, i) ==> !is_match_at(text, pat, j),
        first_match_from(text, pat, i) < text.len() ==> is_match_at(
            text,
            pat,
            first_match_from(text, pat, i),
        ),
    decreases text.len() - i,
{
    if i + pat.len() > text.len() {
    } else if is_match_at(text, pat, i) {
    } else {
        lemma_first_match_props(text, pat, i + 1);
    }
}

/// With a match at `p` and none before it, the leftmost occurrence is `p`.
proof fn lemma_first_match_is(text: Seq<char>, pat: Seq<char>, p: int)
    requires
        pat.len() > 0,
        is_match_at(text, pat, p),
        forall|j: int| 0 <= j < p ==> !is_match_at(text, pat, j),
    ensures
        first_match_from(text, pat, 0) == p,
{
    lemma_first_match_props(text, pat, 0);
    let q = first_match_from(text, pat, 0);
    if q < p {
        assert(is_match_at(text, pat, q));
    }
    if q > p {
        assert(!is_match_at(text, pat, p));
    }
}

/// A step on a terminating pair shrinks [`apply_measure`].
proof fn lemma_measure_decreases(find: Seq<char>, rep: Seq<char>, a: Seq<char>, i: int)
    requires
        terminating_pair(find, rep),
        is_match_at(a, find, i),
        forall|j: int| 0 <= j < i ==> !is_match_at(a, find, j),
    ensures
        apply_measure(find, rep, spliced(a, i, find.len() as int, rep)) < apply_measure(
            find,
            rep,
            a,
        ),
{
    let f = find.len() as int;
    let r = rep.len() as int;
    let b = spliced(a, i, f, rep);
    assert(b.len() == a.len() - f + r);
    if r < f {
    } else {
        // The replacement neither contains the pattern nor can recreate it
        // across a seam, so after the replacement at `i` no occurrence of
        // the pattern starts before `i + r`, and none stands in the
        // unchanged prefix either.
        assert(r >= 1);
        lemma_first_match_is(a, find, i);
        assert forall|q: int| 0 <= q < i + r implies !is_match_at(b, find, q) by {
            if q + f <= i {
                assert(a.subrange(q, q + f) =~= b.subrange(q, q + f));
                assert(!is_match_at(a, find, q));
            } else if is_match_at(b, find, q) {
                assert(forall|x: int| 0 <= x < i ==> b[x] == a[x]);
                assert(forall|x: int| i <= x < i + r ==> b[x] == rep[x - i]);
                assert(forall|t: int| 0 <= t < f ==> #[trigger] find[t] == b[q + t]) by {
                    assert(forall|t: int|
                        0 <= t < f ==> #[trigger] b.subrange(q, q + f)[t] == b[q + t]);
                }
                if q < i {
                    // The match's tail is a nonempty prefix of the
                    // replacement equal to a suffix of the pattern.
                    let k = q + f - i;
                    assert(1 <= k < f && k <= r);
                    assert(rep.subrange(0, k) =~= find.subrange(
                        find.len() - k,
                        find.len() as int,
                    )) by {
                        assert forall|t: int| 0 <= t < k implies rep.subrange(0, k)[t]
                            == find.subrange(find.len() - k, find.len() as int)[t] by {
                            assert(find[f - k + t] == b[q + (f - k + t)]);
                            assert(b[i + t] == rep[t]);
                        }
                    }
                    assert(false);
                } else if q + f <= i + r {
                    // The match lies inside the replacement.
                    assert(rep.subrange(q - i, q - i + f) =~= find) by {
                        assert forall|t: int| 0 <= t < f implies rep.subrange(q - i, q - i + f)[t]
                            == find[t] by {
                            assert(find[t] == b[q + t]);
                            assert(b[q + t] == rep[q + t - i]);
                        }
                    }
                    assert(is_match_at(rep, find, q - i));
                    assert(false);
                } else {
                    // The match's head is a nonempty suffix of the
                    // replacement equal to a prefix of the pattern.
                    let k = i + r - q;
                    assert(1 <= k < f && k <= r);
                    assert(rep.subrange(rep.len() - k, rep.len() as int) =~= find.subrange(0, k))
                        by {
                        assert forall|t: int| 0 <= t < k implies rep.subrange(
                            rep.len() - k,
                            rep.len() as int,
                        )[t] == find.subrange(0, k)[t] by {
                            assert(find[t] == b[q + t]);
                            assert(b[q + t] == rep[q + t - i]);
                        }
                    }
                    assert(false);
                }
            }
        }
        lemma_first_match_props(b, find, 0);
        let qb = first_match_from(b, find, 0);
        if qb < b.len() {
            assert(is_match_at(b, find, qb));
            assert(qb >= i + r);
            assert(b.len() - qb <= a.len() - f - i);
        } else {
            assert(b.len() - qb == 0);
        }
        assert(a.len() - first_match_from(a, find, 0) == a.len() - i);
    }
}

/// One more step extends a step chain by one.
proof fn lemma_steps_snoc(
    find: Seq<char>,
    rep: Seq<char>,
    a: Seq<char>,
    m: Seq<char>,
    b: Seq<char>,
    n: nat,
)
    requires
        steps_to(find, rep, a, m, n),
        step(find, rep, m, b),
    ensures
        steps_to(find, rep, a, b, (n + 1) as nat),
    decreases n,
{
    if n == 0 {
        assert(steps_to(find, rep, b, b, 0));
    } else {
        let m1 = choose|m1: Seq<char>|
            step(find, rep, a, m1) && steps_to(find, rep, m1, m, (n - 1) as nat);
        lemma_steps_snoc(find, rep, m1, m, b, (n - 1) as nat);
    }
}

/// The infinite-loop hazard, as a statement about the step relation: when the
/// replacement contains the pattern, no number of replacements ever rids text
/// of the pattern once it occurs, so applying such a pair to completion is
/// impossible.
pub proof fn lemma_self_feeding_pair_never_clears(
    find: Seq<char>,
    rep: Seq<char>,
    a: Seq<char>,
    b: Seq<char>,
    n: nat,
)
    requires
        has_match(a, find),
        has_match(rep, find),
        steps_to(find, rep, a, b, n),
    ensures
        has_match(b, find),
    decreases n,
{
    if n == 0 {
    } else {
        let m = choose|m: Seq<char>|
            step(find, rep, a, m) && steps_to(find, rep, m, b, (n - 1) as nat);
        let i = choose|i: int|
            {
                &&& is_match_at(a, find, i)
                &&& (forall|j: int| 0 <= j < i ==> !is_match_at(a, find, j))
                &&& m == spliced(a, i, find.len() as int, rep)
            };
        let k = choose|k: int| is_match_at(rep, find, k);
        assert(m.subrange(i + k, i + k + find.len()) =~= rep.subrange(k, k + find.len()));
        assert(is_match_at(m, find, i + k));
        lemma_self_feeding_pair_never_clears(find, rep, m, b, (n - 1) as nat);
    }
}

/// The hazard's consequence: a pair whose replacement contains its own
/// pattern can never be applied to completion on text where the pattern
/// occurs — there is no number of replacements after which none remains.
pub proof fn lemma_self_feeding_pair_never_completes(
    find: Seq<char>,
    rep: Seq<char>,
    a: Seq<char>,
    b: Seq<char>,
)
    requires
        has_match(a, find),
        has_match(rep, find),
    ensures
        !fully_applied(find, rep, a, b),
{
    if fully_applied(find, rep, a, b) {
        let n = choose|n: nat| steps_to(find, rep, a, b, n);
        lemma_self_feeding_pair_never_clears(find, rep, a, b, n);
    }
}

/// A pair whose pattern does not occur leaves the text exactly as it was.
pub proof fn lemma_no_match_no_change(find: Seq<char>, rep: Seq<char>, a: Seq<char>, b: Seq<char>)
    requires
        fully_applied(find, rep, a, b),
        !has_match(a, find),
    ensures
        b == a,
{
    let n = choose|n: nat| steps_to(find, rep, a, b, n);
    if n > 0 {
        let m = choose|m: Seq<char>|
            step(find, rep, a, m) && steps_to(find, rep, m, b, (n - 1) as nat);
        let i = choose|i: int|
            {
                &&& is_match_at(a, find, i)
                &&& (forall|j: int| 0 <= j < i ==> !is_match_at(a, find, j))
                &&& m == spliced(a, i, find.len() as int, rep)
            };
        assert(is_match_at(a, find, i));
        assert(false);
    }
}

/// A whole pair list none of whose patterns occurs leaves the text exactly
/// as it was.
pub proof fn lemma_no_matches_no_change(
    pairs: Seq<(Seq<char>, Seq<char>)>,
    a: Seq<char>,
    b: Seq<char>,
)
    requires
        all_applied(pairs, a, b),
        forall|k: int| 0 <= k < pairs.len() ==> !has_match(a, #[trigger] pairs[k].0),
    ensures
        b == a,
{
    let texts = choose|texts: Seq<Seq<char>>| chain_applied(pairs, texts, a, b);
    lemma_chain_untouched(pairs, texts, a, pairs.len() as int);
}

/// Along an untouched chain every intermediate text is still the start text.
proof fn lemma_chain_untouched(
    pairs: Seq<(Seq<char>, Seq<char>)>,
    texts: Seq<Seq<char>>,
    a: Seq<char>,
    j: int,
)
    requires
        texts.len() == pairs.len() + 1,
        texts[0] == a,
        forall|k: int|
            0 <= k < pairs.len() ==> #[trigger] fully_applied(
                pairs[k].0,
                pairs[k].1,
                texts[k],
                texts[k + 1],
            ),
        forall|k: int| 0 <= k < pairs.len() ==> !has_match(a, #[trigger] pairs[k].0),
        0 <= j <= pairs.len(),
    ensures
        texts[j] == a,
    decreases j,
{
    if j > 0 {
        lemma_chain_untouched(pairs, texts, a, j - 1);
        assert(fully_applied(pairs[j - 1].0, pairs[j - 1].1, texts[j - 1], texts[j - 1 + 1]));
        assert(!has_match(a, pairs[j - 1].0));
        lemma_no_match_no_change(pairs[j - 1].0, pairs[j - 1].1, texts[j - 1], texts[j]);
    }
}

/// Pair lists compose sequentially: applying `p` to completion and then `q`
/// is applying the concatenation `p + q`.
pub proof fn lemma_all_applied_append(
    p: Seq<(Seq<char>, Seq<char>)>,
    q: Seq<(Seq<char>, Seq<char>)>,
    a: Seq<char>,
    m: Seq<char>,
    b: Seq<char>,
)
    requires
        all_applied(p, a, m),
        all_applied(q, m, b),
    ensures
        all_applied(p + q, a, b),
{
    let t1 = choose|t1: Seq<Seq<char>>| chain_applied(p, t1, a, m);
    let t2 = choose|t2: Seq<Seq<char>>| chain_applied(q, t2, m, b);
    let t = t1 + t2.drop_first();
    assert(t.len() == (p + q).len() + 1);
    assert(t[0] == a);
    assert(t[(p + q).len() as int] == b) by {
        if q.len() == 0 {
            assert(t =~= t1);
        } else {
            assert(t[(p.len() + q.len()) as int] == t2[q.len() as int]);
        }
    }
    assert forall|k: int| 0 <= k < (p + q).len() implies #[trigger] fully_applied(
        (p + q)[k].0,
        (p + q)[k].1,
        t[k],
        t[k + 1],
    ) by {
        if k < p.len() {
            assert((p + q)[k] == p[k]);
            assert(t[k] == t1[k]);
            assert(t[k + 1] == t1[k + 1]);
            assert(fully_applied(p[k].0, p[k].1, t1[k], t1[k + 1]));
        } else {
            let j = k - p.len();
            assert((p + q)[k] == q[j]);
            assert(t[k] == t2[j]) by {
                if k == p.len() {
                    assert(t[k] == t1[p.len() as int]);
                    assert(t1[p.len() as int] == m);
                    assert(t2[0] == m);
                } else {
                    assert(t[k] == t2.drop_first()[k - t1.len()]);
                }
            }
            assert(t[k + 1] == t2.drop_first()[k + 1 - t1.len()]);
            assert(t[k + 1] == t2[j + 1]);
            assert(fully_applied(q[j].0, q[j].1, t2[j], t2[j + 1]));
        }
    }
    assert(chain_applied(p + q, t, a, b));
}

/// One replacement step is deterministic: the leftmost occurrence is unique.
proof fn lemma_step_deterministic(
    find: Seq<char>,
    rep: Seq<char>,
    a: Seq<char>,
    m1: Seq<char>,
    m2: Seq<char>,
)
    requires
        step(find, rep, a, m1),
        step(find, rep, a, m2),
    ensures
        m1 == m2,
{
    let i1 = choose|i: int|
        {
            &&& is_match_at(a, find, i)
            &&& (forall|j: int| 0 <= j < i ==> !is_match_at(a, find, j))
            &&& m1 == spliced(a, i, find.len() as int, rep)
        };
    let i2 = choose|i: int|
        {
            &&& is_match_at(a, find, i)
            &&& (forall|j: int| 0 <= j < i ==> !is_match_at(a, find, j))
            &&& m2 == spliced(a, i, find.len() as int, rep)
        };
    assert(i1 == i2);
}

/// Applying one pair to completion is deterministic.
proof fn lemma_fully_applied_deterministic(
    find: Seq<char>,
    rep: Seq<char>,
    a: Seq<char>,
    b1: Seq<char>,
    b2: Seq<char>,
    n1: nat,
)
    requires
        steps_to(find, rep, a, b1, n1),
        !has_match(b1, find),
        fully_applied(find, rep, a, b2),
    ensures
        b1 == b2,
    decreases n1,
{
    let n2 = choose|n: nat| steps_to(find, rep, a, b2, n);
    if !has_match(a, find) {
        assert(fully_applied(find, rep, a, b1));
        lemma_no_match_no_change(find, rep, a, b1);
        lemma_no_match_no_change(find, rep, a, b2);
    } else {
        assert(n1 > 0) by {
            if n1 == 0 {
                assert(b1 == a);
            }
        }
        assert(n2 > 0) by {
            if n2 == 0 {
                assert(b2 == a);
            }
        }
        let m1 = choose|m: Seq<char>|
            step(find, rep, a, m) && steps_to(find, rep, m, b1, (n1 - 1) as nat);
        let m2 = choose|m: Seq<char>|
            step(find, rep, a, m) && steps_to(find, rep, m, b2, (n2 - 1) as nat);
        lemma_step_deterministic(find, rep, a, m1, m2);
        assert(fully_applied(find, rep, m1, b2));
        lemma_fully_applied_deterministic(find, rep, m1, b1, b2, (n1 - 1) as nat);
    }
}

/// The engine is a pure function of its inputs: a pair list applied to the
/// same text can only produce one result.
pub proof fn lemma_all_applied_deterministic(
    pairs: Seq<(Seq<char>, Seq<char>)>,
    a: Seq<char>,
    b1: Seq<char>,
    b2: Seq<char>,
)
    requires
        all_applied(pairs, a, b1),
        all_applied(pairs, a, b2),
    ensures
        b1 == b2,
    decreases pairs.len(),
{
    let t1 = choose|t: Seq<Seq<char>>| chain_applied(pairs, t, a, b1);
    let t2 = choose|t: Seq<Seq<char>>| chain_applied(pairs, t, a, b2);
    lemma_chains_agree(pairs, t1, t2, pairs.len() as int);
}

/// Two chains for the same pair list from the same start agree everywhere.
proof fn lemma_chains_agree(
    pairs: Seq<(Seq<char>, Seq<char>)>,
    t1: Seq<Seq<char>>,
    t2: Seq<Seq<char>>,
    j: int,
)
    requires
        t1.len() == pairs.len() + 1,
        t2.len() == pairs.len() + 1,
        t1[0] == t2[0],
        forall|k: int|
            0 <= k < pairs.len() ==> #[trigger] fully_applied(
                pairs[k].0,
                pairs[k].1,
                t1[k],
                t1[k + 1],
            ),
        forall|k: int|
            0 <= k < pairs.len() ==> #[trigger] fully_applied(
                pairs[k].0,
                pairs[k].1,
                t2[k],
                t2[k + 1],
            ),
        0 <= j <= pairs.len(),
    ensures
        t1[j] == t2[j],
    decreases j,
{
    if j > 0 {
        lemma_chains_agree(pairs, t1, t2, j - 1);
        assert(fully_applied(pairs[j - 1].0, pairs[j - 1].1, t1[j - 1], t1[j - 1 + 1]));
        assert(fully_applied(pairs[j - 1].0, pairs[j - 1].1, t2[j - 1], t2[j - 1 + 1]));
        let f = pairs[j - 1].0;
        let r = pairs[j - 1].1;
        let x = t1[j - 1];
        let y = t1[j];
        let n = choose|n: nat| steps_to(f, r, x, y, n);
        lemma_fully_applied_deterministic(f, r, x, y, t2[j], n);
    }
}

/// Whether two ranges of equal length hold the same characters.
fn ranges_equal(a: &Vec<char>, a0: usize, b: &Vec<char>, b0: usize, len: usize) -> (r: bool)
    requires
        a0 + len <= a@.len(),
        b0 + len <= b@.len(),
    ensures
        r == (a@.subrange(a0 as int, a0 + len) == b@.subrange(b0 as int, b0 + len)),
{
    let a_len = a.len();
    let b_len = b.len();
    let mut t: usize = 0;
    while t < len
        invariant
            a0 + len <= a_len == a@.len(),
            b0 + len <= b_len == b@.len(),
            t <= len,
            forall|x: int| 0 <= x < t ==> #[trigger] a@[a0 + x] == b@[b0 + x],
        decreases len - t,
    {
        if a[a0 + t] != b[b0 + t] {
            proof {
                assert(a@.subrange(a0 as int, a0 + len)[t as int] == a@[a0 + t]);
                assert(b@.subrange(b0 as int, b0 + len)[t as int] == b@[b0 + t]);
            }
            return false;
        }
        t = t + 1;
    }
    proof {
        assert forall|x: int| 0 <= x < len implies #[trigger] a@.subrange(a0 as int, a0 + len)[x]
            == b@.subrange(b0 as int, b0 + len)[x] by {
            assert(a@[a0 + x] == b@[b0 + x]);
        }
        assert(a@.subrange(a0 as int, a0 + len) =~= b@.subrange(b0 as int, b0 + len));
    }
    true
}

/// Whether no seam can recreate the pattern; see [`seam_free`].
fn seam_free_exec(find: &Vec<char>, rep: &Vec<char>) -> (r: bool)
    requires
        find@.len() > 0,
    ensures
        r == seam_free(find@, rep@),
{
    let f = find.len();
    let rl = rep.len();
    let mut k: usize = 1;
    while k < f && k <= rl
        invariant
            f == find@.len(),
            rl == rep@.len(),
            1 <= k,
            forall|k2: int|
                1 <= k2 < k && k2 < find@.len() && k2 <= rep@.len() ==> rep@.subrange(
                    rep@.len() - k2,
                    rep@.len() as int,
                ) != find@.subrange(0, k2),
            forall|k2: int|
                1 <= k2 < k && k2 < find@.len() && k2 <= rep@.len() ==> rep@.subrange(0, k2)
                    != find@.subrange(find@.len() - k2, find@.len() as int),
        decreases f - k,
    {
        if ranges_equal(rep, rl - k, find, 0, k) {
            proof {
                assert(!seam_free(find@, rep@)) by {
                    if seam_free(find@, rep@) {
                        assert(rep@.subrange(rep@.len() - k, rep@.len() as int) != find@.subrange(
                            0,
                            k as int,
                        ));
                    }
                }
            }
            return false;
        }
        if ranges_equal(rep, 0, find, f - k, k) {
            proof {
                assert(!seam_free(find@, rep@)) by {
                    if seam_free(find@, rep@) {
                        assert(rep@.subrange(0, k as int) != find@.subrange(
                            find@.len() - k,
                            find@.len() as int,
                        ));
                    }
                }
            }
            return false;
        }
        k = k + 1;
    }
    true
}

/// Whether the engine accepts this pair; see [`terminating_pair`].
pub fn pair_accepted(find: &String, rep: &String) -> (r: bool)
    ensures
        r == terminating_pair(find@, rep@),
{
    let fc = chars_vec(find.as_str());
    let rc = chars_vec(rep.as_str());
    if fc.len() == 0 {
        return false;
    }
    if rc.len() < fc.len() {
        return true;
    }
    if find_first(&rc, &fc).is_some() {
        return false;
    }
    seam_free_exec(&fc, &rc)
}

/// Whether the engine accepts every pair of the list; see
/// [`terminating_pairs`].  A caller that cannot meet the engine's
/// precondition tests it here first.
pub fn pairs_accepted(pairs: &Vec<(String, String)>) -> (r: bool)
    ensures
        r == terminating_pairs(pairs@),
{
    let mut k: usize = 0;
    while k < pairs.len()
        invariant
            k <= pairs@.len(),
            forall|t: int| 0 <= t < k ==> terminating_pair(#[trigger] pairs@[t].0@, pairs@[t].1@),
        decreases pairs@.len() - k,
    {
        if !pair_accepted(&pairs[k].0, &pairs[k].1) {
            return false;
        }
        k = k + 1;
    }
    true
}

/// The position of the leftmost occurrence of `pat` in `text`, if any.
pub fn find_first(text: &Vec<char>, pat: &Vec<char>) -> (r: Option<usize>)
    requires
        pat@.len() > 0,
    ensures
        r matches Some(i) ==> is_match_at(text@, pat@, i as int) && (forall|j: int|
            0 <= j < i ==> !is_match_at(text@, pat@, j)),
        r is None ==> !has_match(text@, pat@),
{
    let n = text.len();
    let m = pat.len();
    if m > n {
        assert forall|j: int| !is_match_at(text@, pat@, j) by {}
        return None;
    }
    let mut i: usize = 0;
    while i <= n - m
        invariant
            0 < m <= n == text@.len(),
            m == pat@.len(),
            i <= n - m + 1,
            forall|j: int| 0 <= j < i ==> !is_match_at(text@, pat@, j),
        decreases n - m + 1 - i,
    {
        let mut k: usize = 0;
        let mut hit: bool = true;
        while k < m
            invariant
                0 < m <= n == text@.len(),
                m == pat@.len(),
                i + m <= n,
                k <= m,
                hit ==> forall|t: int| 0 <= t < k ==> text@[i + t] == pat@[t],
                !hit ==> !is_match_at(text@, pat@, i as int),
            decreases m - k,
        {
            if text[i + k] != pat[k] {
                proof {
                    if is_match_at(text@, pat@, i as int) {
                        assert(text@.subrange(i as int, i + m)[k as int] == pat@[k as int]);
                    }
                }
                hit = false;
                k = m;
            } else {
                k = k + 1;
            }
        }
        if hit {
            proof {
                assert(text@.subrange(i as int, i + m) =~= pat@);
            }
            return Some(i);
        }
        i = i + 1;
    }
    proof {
        assert forall|j: int| !is_match_at(text@, pat@, j) by {
            if 0 <= j < i {
            } else if j >= i {
                assert(j + m > n);
            }
        }
    }
    None
}

/// The text with the range `[i, i + plen)` replaced by `rep`, as a new
/// buffer.
pub fn splice(text: &Vec<char>, i: usize, plen: usize, rep: &Vec<char>) -> (r: Vec<char>)
    requires
        i + plen <= text@.len(),
    ensures
        r@ == spliced(text@, i as int, plen as int, rep@),
{
    let mut r: Vec<char> = Vec::new();
    let mut t: usize = 0;
    while t < i
        invariant
            i + plen <= text@.len(),
            t <= i,
            r@ == text@.subrange(0, t as int),
        decreases i - t,
    {
        proof {
            assert(text@.subrange(0, t + 1) =~= text@.subrange(0, t as int).push(text@[t as int]));
        }
        r.push(text[t]);
        t = t + 1;
    }
    let mut t: usize = 0;
    while t < rep.len()
        invariant
            i + plen <= text@.len(),
            t <= rep@.len(),
            r@ == text@.subrange(0, i as int) + rep@.subrange(0, t as int),
        decreases rep@.len() - t,
    {
        proof {
            assert(text@.subrange(0, i as int) + rep@.subrange(0, t + 1) =~= (text@.subrange(
                0,
                i as int,
            ) + rep@.subrange(0, t as int)).push(rep@[t as int]));
        }
        r.push(rep[t]);
        t = t + 1;
    }
    proof {
        assert(rep@.subrange(0, rep@.len() as int) =~= rep@);
    }
    let n = text.len();
    let mut t: usize = i + plen;
    while t < n
        invariant
            n == text@.len(),
            i + plen <= t <= text@.len(),
            r@ == text@.subrange(0, i as int) + rep@ + text@.subrange(i + plen, t as int),
        decreases text@.len() - t,
    {
        proof {
            assert(text@.subrange(0, i as int) + rep@ + text@.subrange(i + plen, t + 1) =~= (
            text@.subrange(0, i as int) + rep@ + text@.subrange(i + plen, t as int)).push(
                text@[t as int],
            ));
        }
        r.push(text[t]);
        t = t + 1;
    }
    r
}

/// Applies one find/replace pair to completion: replaces the leftmost
/// occurrence and restarts the search from the beginning of the mutated text
/// until no occurrence remains.
pub fn apply_one(find: &Vec<char>, rep: &Vec<char>, text: &mut Vec<char>)
    requires
        terminating_pair(find@, rep@),
    ensures
        fully_applied(find@, rep@, old(text)@, final(text)@),
{
    let ghost orig = text@;
    let ghost mut n: nat = 0;
    let mut done: bool = false;
    while !done
        invariant
            terminating_pair(find@, rep@),
            steps_to(find@, rep@, orig, text@, n),
            done ==> !has_match(text@, find@),
        decreases apply_measure(find@, rep@, text@), (if done {
            0int
        } else {
            1int
        }),
    {
        proof {
            lemma_first_match_props(text@, find@, 0);
        }
        match find_first(text, find) {
            None => {
                done = true;
            },
            Some(i) => {
                let next = splice(text, i, find.len(), rep);
                proof {
                    assert(step(find@, rep@, text@, next@));
                    lemma_measure_decreases(find@, rep@, text@, i as int);
                    lemma_first_match_props(next@, find@, 0);
                    lemma_steps_snoc(find@, rep@, orig, text@, next@, n);
                    n = (n + 1) as nat;
                }
                *text = next;
            },
        }
    }
}

/// Applies every pair in list order, each to completion, so that later pairs
/// see earlier pairs' output.
pub fn replace_all(find_replace: Vec<(String, String)>, text: &mut String)
    requires
        terminating_pairs(find_replace@),
    ensures
        all_applied(pairs_view(find_replace@), old(text)@, final(text)@),
{
    let ghost orig = text@;
    let ghost pv = pairs_view(find_replace@);
    let mut chars = chars_vec(text.as_str());
    let ghost mut texts: Seq<Seq<char>> = seq![orig];
    let mut k: usize = 0;
    while k < find_replace.len()
        invariant
            terminating_pairs(find_replace@),
            pv == pairs_view(find_replace@),
            k <= find_replace@.len(),
            texts.len() == k + 1,
            texts[0] == orig,
            texts[k as int] == chars@,
            forall|t: int|
                0 <= t < k ==> #[trigger] fully_applied(pv[t].0, pv[t].1, texts[t], texts[t + 1]),
        decreases find_replace@.len() - k,
    {
        let fc = chars_vec(find_replace[k].0.as_str());
        let rc = chars_vec(find_replace[k].1.as_str());
        apply_one(&fc, &rc, &mut chars);
        proof {
            assert(pv[k as int] == (find_replace@[k as int].0@, find_replace@[k as int].1@));
            texts = texts.push(chars@);
            assert(fully_applied(pv[k as int].0, pv[k as int].1, texts[k as int], texts[k + 1]));
        }
        k = k + 1;
    }
    proof {
        assert(chain_applied(pv, texts, orig, chars@));
    }
    let out = string_from_chars(&chars);
    *text = out;
}

/// [`replace_all`] behind its runtime guard: applies the pairs only when
/// the engine accepts every one of them, and otherwise reports refusal,
/// leaving the text untouched.
pub fn try_replace_all(find_replace: Vec<(String, String)>, text: &mut String) -> (r: bool)
    ensures
        r == terminating_pairs(find_replace@),
        r ==> all_applied(pairs_view(find_replace@), old(text)@, final(text)@),
        !r ==> final(text)@ == old(text)@,
{
    if pairs_accepted(&find_replace) {
        replace_all(find_replace, text);
        true
    } else {
        false
    }
}

} // verus!
