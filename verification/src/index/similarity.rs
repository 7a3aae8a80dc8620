//! Plain string similarity: edit distance and case-insensitive subsequence
//! matching.

use vstd::prelude::*;
use crate::text::chars_of;

verus! {

/// The least of three numbers.
pub open spec fn min3(x: nat, y: nat, z: nat) -> nat {
    if x <= y && x <= z { x } else if y <= z { y } else { z }
}

/// The Levenshtein distance: the least number of single-character
/// insertions, deletions and substitutions that turn `a` into `b`.
pub open spec fn levenshtein(a: Seq<char>, b: Seq<char>) -> nat
    decreases a.len() + b.len(),
{
    if a.len() == 0 {
        b.len()
    } else if b.len() == 0 {
        a.len()
    } else {
        min3(
            levenshtein(a.drop_last(), b) + 1,
            levenshtein(a, b.drop_last()) + 1,
            levenshtein(a.drop_last(), b.drop_last()) + if a.last() == b.last() { 0nat } else { 1nat },
        )
    }
}

/// The distance is at most the length of the longer text.
pub proof fn lemma_levenshtein_bound(a: Seq<char>, b: Seq<char>)
    ensures
        levenshtein(a, b) <= if a.len() >= b.len() { a.len() } else { b.len() },
    decreases a.len() + b.len(),
{
    if a.len() > 0 && b.len() > 0 {
        lemma_levenshtein_bound(a.drop_last(), b.drop_last());
    }
}

/// A text is at distance zero from itself.
pub proof fn lemma_levenshtein_identity(a: Seq<char>)
    ensures
        levenshtein(a, a) == 0,
    decreases a.len(),
{
    if a.len() > 0 {
        lemma_levenshtein_identity(a.drop_last());
    }
}

/// Only equal texts are at distance zero.
pub proof fn lemma_levenshtein_zero(a: Seq<char>, b: Seq<char>)
    ensures
        levenshtein(a, b) == 0 <==> a == b,
    decreases a.len() + b.len(),
{
    if a.len() == 0 && b.len() == 0 {
        assert(a =~= b);
    } else if a == b {
        lemma_levenshtein_identity(a);
    } else if a.len() > 0 && b.len() > 0 {
        lemma_levenshtein_zero(a.drop_last(), b.drop_last());
        if levenshtein(a, b) == 0 {
            assert(a.drop_last() == b.drop_last());
            assert(a.last() == b.last());
            assert(a =~= b) by {
                assert(a == a.drop_last().push(a.last()));
                assert(b == b.drop_last().push(b.last()));
            }
        }
    }
}

/// The distance is at least the difference of the lengths.
pub proof fn lemma_levenshtein_lower_bound(a: Seq<char>, b: Seq<char>)
    ensures
        levenshtein(a, b) >= a.len() - b.len(),
        levenshtein(a, b) >= b.len() - a.len(),
    decreases a.len() + b.len(),
{
    if a.len() > 0 && b.len() > 0 {
        lemma_levenshtein_lower_bound(a.drop_last(), b);
        lemma_levenshtein_lower_bound(a, b.drop_last());
        lemma_levenshtein_lower_bound(a.drop_last(), b.drop_last());
    }
}

/// The distance obeys the triangle inequality.
pub proof fn lemma_levenshtein_triangle(a: Seq<char>, b: Seq<char>, c: Seq<char>)
    ensures
        levenshtein(a, c) <= levenshtein(a, b) + levenshtein(b, c),
    decreases a.len() + b.len() + c.len(),
{
    lemma_levenshtein_lower_bound(a, b);
    lemma_levenshtein_lower_bound(b, c);
    lemma_levenshtein_bound(a, c);
    if a.len() > 0 && b.len() > 0 && c.len() > 0 {
        let a1 = a.drop_last();
        let b1 = b.drop_last();
        let c1 = c.drop_last();
        let ab_sub = levenshtein(a1, b1) + if a.last() == b.last() { 0nat } else { 1nat };
        let bc_sub = levenshtein(b1, c1) + if b.last() == c.last() { 0nat } else { 1nat };
        let ac_sub = levenshtein(a1, c1) + if a.last() == c.last() { 0nat } else { 1nat };
        assert(levenshtein(a, c) <= levenshtein(a1, c) + 1);
        assert(levenshtein(a, c) <= levenshtein(a, c1) + 1);
        assert(levenshtein(a, c) <= ac_sub);
        if levenshtein(a, b) == levenshtein(a1, b) + 1 {
            lemma_levenshtein_triangle(a1, b, c);
        } else if levenshtein(b, c) == levenshtein(b, c1) + 1 {
            lemma_levenshtein_triangle(a, b, c1);
        } else if levenshtein(a, b) == levenshtein(a, b1) + 1 {
            if levenshtein(b, c) == levenshtein(b1, c) + 1 {
                lemma_levenshtein_triangle(a, b1, c);
            } else {
                assert(levenshtein(b, c) == bc_sub);
                lemma_levenshtein_triangle(a, b1, c1);
            }
        } else {
            assert(levenshtein(a, b) == ab_sub);
            if levenshtein(b, c) == levenshtein(b1, c) + 1 {
                lemma_levenshtein_triangle(a1, b1, c);
            } else {
                assert(levenshtein(b, c) == bc_sub);
                lemma_levenshtein_triangle(a1, b1, c1);
            }
        }
    }
}

/// The distance does not depend on the order of its arguments.
pub proof fn lemma_levenshtein_symmetric(a: Seq<char>, b: Seq<char>)
    ensures
        levenshtein(a, b) == levenshtein(b, a),
    decreases a.len() + b.len(),
{
    if a.len() > 0 && b.len() > 0 {
        lemma_levenshtein_symmetric(a.drop_last(), b);
        lemma_levenshtein_symmetric(a, b.drop_last());
        lemma_levenshtein_symmetric(a.drop_last(), b.drop_last());
    }
}


/// The characters that `char::to_lowercase` yields for `c`.
pub uninterp spec fn lowercase_of(c: char) -> Seq<char>;

/// `char::to_lowercase`, collected: the lowercase mapping of `c`, which for
/// an ASCII character is the character itself with `A`..=`Z` moved to
/// `a`..=`z`.
#[verifier::external_body]
pub(crate) fn lowercase(c: char) -> (lower: Vec<char>)
    ensures
        lower@ == lowercase_of(c),
        (c as u32) < 128 && 'A' <= c && c <= 'Z' ==> lower@ == seq![((c as u32) + 32) as char],
        (c as u32) < 128 && !('A' <= c && c <= 'Z') ==> lower@ == seq![c],
{
    c.to_lowercase().collect()
}

/// Whether two characters have the same lowercase mapping.
pub open spec fn same_letter(a: char, b: char) -> bool {
    lowercase_of(a) == lowercase_of(b)
}

/// Whether two characters have the same lowercase mapping.
pub fn same_letter_of(a: char, b: char) -> (same: bool)
    ensures
        same == same_letter(a, b),
{
    let la = lowercase(a);
    let lb = lowercase(b);
    if la.len() != lb.len() {
        return false;
    }
    let mut k: usize = 0;
    while k < la.len()
        invariant
            la@.len() == lb@.len(),
            la@ == lowercase_of(a),
            lb@ == lowercase_of(b),
            k <= la@.len(),
            forall|m: int| 0 <= m < k ==> la@[m] == lb@[m],
        decreases la.len() - k,
    {
        if la[k] != lb[k] {
            assert(la@[k as int] != lb@[k as int]);
            assert(la@ != lb@);
            return false;
        }
        k = k + 1;
    }
    assert(la@ =~= lb@);
    true
}

/// `idx` places the characters of `q` at increasing positions of `t`,
/// each on a character with the same lowercase mapping.
pub open spec fn is_embedding(q: Seq<char>, t: Seq<char>, idx: Seq<int>) -> bool {
    &&& idx.len() == q.len()
    &&& forall|k: int| 0 <= k < idx.len() ==> 0 <= #[trigger] idx[k] < t.len()
    &&& forall|k: int, m: int| 0 <= k < m < idx.len() ==> #[trigger] idx[k] < #[trigger] idx[m]
    &&& forall|k: int| 0 <= k < idx.len() ==> same_letter(q[k], t[#[trigger] idx[k]])
}

/// Whether `q` is a subsequence of `t`, ignoring case.
pub open spec fn subsequence_ignoring_case(q: Seq<char>, t: Seq<char>) -> bool {
    exists|idx: Seq<int>| is_embedding(q, t, idx)
}

/// The first-fit scan: each character of `q` is matched with the first
/// remaining character of `t` with the same lowercase mapping.
pub open spec fn first_fit(q: Seq<char>, t: Seq<char>) -> bool
    decreases t.len(),
{
    if q.len() == 0 {
        true
    } else if t.len() == 0 {
        false
    } else if same_letter(q[0], t[0]) {
        first_fit(q.drop_first(), t.drop_first())
    } else {
        first_fit(q, t.drop_first())
    }
}

/// Shifting an embedding into `t.drop_first()` one place right gives an
/// embedding into `t`.
proof fn lemma_embedding_shift(q: Seq<char>, t: Seq<char>, idx: Seq<int>)
    requires
        t.len() > 0,
        is_embedding(q, t.drop_first(), idx),
    ensures
        is_embedding(q, t, idx.map_values(|x: int| x + 1)),
{
    let shifted = idx.map_values(|x: int| x + 1);
    assert forall|k: int| 0 <= k < shifted.len() implies same_letter(q[k], t[#[trigger] shifted[k]]) by {
        assert(t[shifted[k]] == t.drop_first()[idx[k]]);
    }
}

/// The first-fit scan succeeds exactly when `q` is a subsequence of `t`
/// ignoring case.
pub proof fn lemma_first_fit_correct(q: Seq<char>, t: Seq<char>)
    ensures
        first_fit(q, t) == subsequence_ignoring_case(q, t),
    decreases t.len(),
{
    if q.len() == 0 {
        assert(is_embedding(q, t, Seq::<int>::empty()));
    } else if t.len() == 0 {
        if subsequence_ignoring_case(q, t) {
            let idx = choose|idx: Seq<int>| is_embedding(q, t, idx);
            assert(0 <= idx[0] < t.len());
        }
    } else {
        let qt = q.drop_first();
        let tt = t.drop_first();
        if same_letter(q[0], t[0]) {
            lemma_first_fit_correct(qt, tt);
            if first_fit(qt, tt) {
                let idx = choose|idx: Seq<int>| is_embedding(qt, tt, idx);
                lemma_embedding_shift(qt, t, idx);
                let shifted = idx.map_values(|x: int| x + 1);
                let full = seq![0int] + shifted;
                assert forall|k: int| 0 <= k < full.len() implies same_letter(q[k], t[#[trigger] full[k]]) by {
                    if k > 0 {
                        assert(full[k] == shifted[k - 1]);
                        assert(q[k] == qt[k - 1]);
                    }
                }
                assert forall|k: int, m: int| 0 <= k < m < full.len() implies #[trigger] full[k] < #[trigger] full[m] by {
                    if k > 0 {
                        assert(full[k] == shifted[k - 1]);
                    }
                    assert(full[m] == shifted[m - 1]);
                }
                assert(is_embedding(q, t, full));
            } else {
                if subsequence_ignoring_case(q, t) {
                    let idx = choose|idx: Seq<int>| is_embedding(q, t, idx);
                    let rest = idx.drop_first().map_values(|x: int| x - 1);
                    assert forall|k: int| 0 <= k < rest.len() implies 0 <= #[trigger] rest[k] < tt.len() by {
                        assert(idx[0] < idx[k + 1]);
                    }
                    assert forall|k: int| 0 <= k < rest.len() implies same_letter(qt[k], tt[#[trigger] rest[k]]) by {
                        assert(idx[0] < idx[k + 1]);
                        assert(tt[rest[k]] == t[idx[k + 1]]);
                    }
                    assert forall|k: int, m: int| 0 <= k < m < rest.len() implies #[trigger] rest[k] < #[trigger] rest[m] by {
                        assert(idx[k + 1] < idx[m + 1]);
                    }
                    assert(is_embedding(qt, tt, rest));
                }
            }
        } else {
            lemma_first_fit_correct(q, tt);
            if first_fit(q, tt) {
                let idx = choose|idx: Seq<int>| is_embedding(q, tt, idx);
                lemma_embedding_shift(q, t, idx);
            } else {
                if subsequence_ignoring_case(q, t) {
                    let idx = choose|idx: Seq<int>| is_embedding(q, t, idx);
                    assert(idx[0] != 0);
                    let rest = idx.map_values(|x: int| x - 1);
                    assert forall|k: int| 0 <= k < rest.len() implies 0 <= #[trigger] rest[k] < tt.len() by {
                        if k > 0 {
                            assert(idx[0] < idx[k]);
                        }
                    }
                    assert forall|k: int| 0 <= k < rest.len() implies same_letter(q[k], tt[#[trigger] rest[k]]) by {
                        if k > 0 {
                            assert(idx[0] < idx[k]);
                        }
                        assert(tt[rest[k]] == t[idx[k]]);
                    }
                    assert forall|k: int, m: int| 0 <= k < m < rest.len() implies #[trigger] rest[k] < #[trigger] rest[m] by {
                        assert(idx[k] < idx[m]);
                    }
                    assert(is_embedding(q, tt, rest));
                }
            }
        }
    }
}

/// A fallback matcher that needs no index.
pub struct SimpleFuzzyMatcher;

impl SimpleFuzzyMatcher {
    /// The edit distance between two strings, counted in characters.
    pub fn edit_distance(a: &str, b: &str) -> (distance: usize)
        requires
            a@.len() < usize::MAX,
            b@.len() < usize::MAX,
        ensures
            distance == levenshtein(a@, b@),
    {
        let a_chars = chars_of(a);
        let b_chars = chars_of(b);
        let len_a = a_chars.len();
        let len_b = b_chars.len();
        if len_a == 0 {
            return len_b;
        }
        if len_b == 0 {
            return len_a;
        }
        let ghost sa = a_chars@;
        let ghost sb = b_chars@;
        // prev[j] is the distance between the first i - 1 characters of `a`
        // and the first j characters of `b`.
        let mut prev: Vec<usize> = Vec::new();
        let mut j: usize = 0;
        while j <= len_b
            invariant
                len_b == sb.len(),
                len_b < usize::MAX,
                j <= len_b + 1,
                prev@.len() == j,
                forall|k: int| 0 <= k < j ==> prev@[k] == k,
            decreases len_b + 1 - j,
        {
            prev.push(j);
            j = j + 1;
        }
        assert forall|k: int| 0 <= k <= len_b implies prev@[k] == levenshtein(sa.take(0), sb.take(k)) by {
            assert(sa.take(0).len() == 0);
        }
        let mut i: usize = 1;
        while i <= len_a
            invariant
                len_a == sa.len(),
                len_b == sb.len(),
                len_a < usize::MAX,
                len_b < usize::MAX,
                a_chars@ == sa,
                b_chars@ == sb,
                1 <= i <= len_a + 1,
                prev@.len() == len_b + 1,
                forall|k: int| 0 <= k <= len_b ==> prev@[k] == levenshtein(sa.take(i - 1), sb.take(k)),
            decreases len_a + 1 - i,
        {
            let mut cur: Vec<usize> = Vec::new();
            cur.push(i);
            assert(sb.take(0).len() == 0);
            assert(cur@[0] == levenshtein(sa.take(i as int), sb.take(0)));
            let mut j: usize = 1;
            while j <= len_b
                invariant
                    len_a == sa.len(),
                    len_b == sb.len(),
                    len_a < usize::MAX,
                    len_b < usize::MAX,
                    a_chars@ == sa,
                    b_chars@ == sb,
                    1 <= i <= len_a,
                    1 <= j <= len_b + 1,
                    prev@.len() == len_b + 1,
                    forall|k: int| 0 <= k <= len_b ==> prev@[k] == levenshtein(sa.take(i - 1), sb.take(k)),
                    cur@.len() == j,
                    forall|k: int| 0 <= k < j ==> cur@[k] == levenshtein(sa.take(i as int), sb.take(k)),
                decreases len_b + 1 - j,
            {
                let ghost x = sa.take(i as int);
                let ghost y = sb.take(j as int);
                assert(x.drop_last() =~= sa.take(i - 1));
                assert(y.drop_last() =~= sb.take(j - 1));
                assert(x.last() == sa[i - 1]);
                assert(y.last() == sb[j - 1]);
                proof {
                    lemma_levenshtein_bound(sa.take(i - 1), sb.take(j as int));
                    lemma_levenshtein_bound(sa.take(i as int), sb.take(j - 1));
                    lemma_levenshtein_bound(sa.take(i - 1), sb.take(j - 1));
                }
                let cost: usize = if a_chars[i - 1] == b_chars[j - 1] { 0 } else { 1 };
                let deletion = prev[j] + 1;
                let insertion = cur[j - 1] + 1;
                let substitution = prev[j - 1] + cost;
                let mut best = deletion;
                if insertion < best {
                    best = insertion;
                }
                if substitution < best {
                    best = substitution;
                }
                cur.push(best);
                j = j + 1;
            }
            prev = cur;
            i = i + 1;
        }
        assert(sa.take(len_a as int) =~= sa);
        assert(sb.take(len_b as int) =~= sb);
        prev[len_b]
    }

    /// Whether `query` is a subsequence of `target`, comparing characters by
    /// their lowercase mapping.
    pub fn is_subsequence(query: &str, target: &str) -> (found: bool)
        ensures
            found == subsequence_ignoring_case(query@, target@),
    {
        let q = chars_of(query);
        let t = chars_of(target);
        let mut qi: usize = 0;
        let mut ti: usize = 0;
        assert(q@.skip(0) =~= q@);
        assert(t@.skip(0) =~= t@);
        while ti < t.len() && qi < q.len()
            invariant
                qi <= q@.len(),
                ti <= t@.len(),
                first_fit(q@, t@) == first_fit(q@.skip(qi as int), t@.skip(ti as int)),
            decreases t.len() - ti,
        {
            let ghost qs = q@.skip(qi as int);
            let ghost ts = t@.skip(ti as int);
            assert(qs[0] == q@[qi as int]);
            assert(ts[0] == t@[ti as int]);
            assert(ts.drop_first() =~= t@.skip(ti + 1));
            assert(qs.drop_first() =~= q@.skip(qi + 1));
            if same_letter_of(q[qi], t[ti]) {
                qi = qi + 1;
            }
            ti = ti + 1;
        }
        proof {
            lemma_first_fit_correct(q@, t@);
            if qi == q.len() {
                assert(q@.skip(qi as int).len() == 0);
            } else {
                assert(t@.skip(ti as int).len() == 0);
            }
        }
        qi == q.len()
    }
}

} // verus!
