//! The transcript's own guess at what comes next: the tokens that followed the most recent
//! earlier occurrence of the longest n-gram (n = 4 down to 1) that ends the transcript.

use vstd::prelude::*;

verus! {

/// The n tokens at i are the transcript's last n.
pub open spec fn ends_like(t: Seq<usize>, n: int, i: int) -> bool {
    t.subrange(i, i + n) == t.subrange(t.len() - n, t.len() as int)
}

/// The most recent start below i of an earlier occurrence of the last n tokens (−1 if none).
pub open spec fn last_match(t: Seq<usize>, n: int, i: int) -> int
    decreases i,
{
    if i <= 0 {
        -1
    } else if ends_like(t, n, i - 1) {
        i - 1
    } else {
        last_match(t, n, i - 1)
    }
}

/// The guess from n-grams of length n down to 1: what followed the most recent earlier
/// occurrence of the longest that recurs, up to g tokens.
pub open spec fn guess_from(t: Seq<usize>, g: int, n: int) -> Seq<usize>
    decreases n,
{
    if n < 1 {
        seq![]
    } else {
        let j = last_match(t, n, t.len() - n);
        if j >= 0 && g > 0 {
            let start = j + n;
            let end = if start + g < t.len() { start + g } else { t.len() as int };
            t.subrange(start, end)
        } else {
            guess_from(t, g, n - 1)
        }
    }
}

/// The longest n-gram tried: four, or one less than the transcript.
pub open spec fn longest(len: int) -> int {
    if len <= 1 { 0 } else if len - 1 < 4 { len - 1 } else { 4 }
}

proof fn lemma_no_match(t: Seq<usize>, n: int, i: int)
    requires
        forall|k: int| 0 <= k < i ==> !ends_like(t, n, k),
    ensures
        last_match(t, n, i) == -1,
    decreases i,
{
    if i > 0 {
        lemma_no_match(t, n, i - 1);
    }
}

proof fn lemma_latest_match(t: Seq<usize>, n: int, i: int, j: int)
    requires
        0 <= j < i,
        ends_like(t, n, j),
        forall|k: int| j < k < i ==> !ends_like(t, n, k),
    ensures
        last_match(t, n, i) == j,
    decreases i,
{
    if i - 1 > j {
        lemma_latest_match(t, n, i - 1, j);
    }
}

proof fn lemma_guess_down(t: Seq<usize>, g: int, m: int, n: int)
    requires
        1 <= n <= m,
        m < t.len(),
        forall|n2: int, k: int| n < n2 <= m && 0 <= k < t.len() - n2 ==> !ends_like(t, n2, k),
    ensures
        guess_from(t, g, m) == guess_from(t, g, n),
    decreases m,
{
    if m > n {
        assert forall|k: int| 0 <= k < t.len() - m implies !ends_like(t, m, k) by {}
        lemma_no_match(t, m, t.len() - m);
        lemma_guess_down(t, g, m - 1, n);
    }
}

/// The guess is what followed the most recent earlier occurrence of the longest recurring
/// n-gram ending the transcript, n tried from min(4, len − 1) down: if the last n tokens
/// recur at j (j < len − n), no later j recurs for n, and no longer n up to min(4, len − 1)
/// recurs at all, `lookup` gives the up to g tokens from j + n on.
pub proof fn lemma_lookup_follows_longest(t: Seq<usize>, g: int, n: int, j: int)
    requires
        g > 0,
        1 <= n <= (if t.len() - 1 < 4 { t.len() - 1 } else { 4 }),
        0 <= j < t.len() - n,
        t.subrange(j, j + n) == t.subrange(t.len() - n, t.len() as int),
        forall|k: int| j < k < t.len() - n ==> #[trigger] t.subrange(k, k + n) != t.subrange(t.len() - n, t.len() as int),
        forall|n2: int, k: int|
            n < n2 <= (if t.len() - 1 < 4 { t.len() - 1 } else { 4 }) && 0 <= k < t.len() - n2
                ==> #[trigger] t.subrange(k, k + n2) != t.subrange(t.len() - n2, t.len() as int),
    ensures
        guess_from(t, g, longest(t.len() as int)) == t.subrange(
            j + n,
            if j + n + g < t.len() { j + n + g } else { t.len() as int },
        ),
{
    let m = longest(t.len() as int);
    assert(m == (if t.len() - 1 < 4 { t.len() - 1 } else { 4 }));
    assert forall|n2: int, k: int| n < n2 <= m && 0 <= k < t.len() - n2 implies !ends_like(t, n2, k) by {}
    lemma_guess_down(t, g, m, n);
    assert forall|k: int| j < k < t.len() - n implies !ends_like(t, n, k) by {}
    lemma_latest_match(t, n, t.len() - n, j);
}

/// Where no n-gram ending the transcript, for n from min(4, len − 1) down to 1, recurs earlier,
/// or where g is 0, `lookup` guesses nothing.
pub proof fn lemma_lookup_nothing_recurs(t: Seq<usize>, g: int)
    requires
        g <= 0 || forall|n2: int, k: int|
            1 <= n2 <= (if t.len() - 1 < 4 { t.len() - 1 } else { 4 }) && 0 <= k < t.len() - n2
                ==> #[trigger] t.subrange(k, k + n2) != t.subrange(t.len() - n2, t.len() as int),
    ensures
        guess_from(t, g, longest(t.len() as int)) == Seq::<usize>::empty(),
{
    lemma_guess_empty(t, g, longest(t.len() as int));
}

proof fn lemma_guess_empty(t: Seq<usize>, g: int, m: int)
    requires
        m <= longest(t.len() as int),
        g <= 0 || forall|n2: int, k: int|
            1 <= n2 <= (if t.len() - 1 < 4 { t.len() - 1 } else { 4 }) && 0 <= k < t.len() - n2
                ==> #[trigger] t.subrange(k, k + n2) != t.subrange(t.len() - n2, t.len() as int),
    ensures
        guess_from(t, g, m) == Seq::<usize>::empty(),
    decreases m,
{
    if m >= 1 {
        if g > 0 {
            assert forall|k: int| 0 <= k < t.len() - m implies !ends_like(t, m, k) by {}
            lemma_no_match(t, m, t.len() - m);
        }
        lemma_guess_empty(t, g, m - 1);
    }
}

fn same_run(t: &[usize], i: usize, j: usize, n: usize) -> (r: bool)
    requires
        i + n <= t.len(),
        j + n <= t.len(),
    ensures
        r == (t@.subrange(i as int, i + n) == t@.subrange(j as int, j + n)),
{
    let mut k: usize = 0;
    while k < n
        invariant
            k <= n,
            i + n <= t.len(),
            j + n <= t.len(),
            forall|q: int| 0 <= q < k ==> #[trigger] t@[i + q] == t@[j + q],
        decreases n - k,
    {
        if t[i + k] != t[j + k] {
            proof {
                assert(t@.subrange(i as int, i + n)[k as int] != t@.subrange(j as int, j + n)[k as int]);
            }
            return false;
        }
        k += 1;
    }
    proof {
        assert forall|q: int| 0 <= q < n implies #[trigger] t@.subrange(i as int, i + n)[q] == t@.subrange(j as int, j + n)[q] by {
            assert(t@[i + q] == t@[j + q]);
        }
        assert(t@.subrange(i as int, i + n) =~= t@.subrange(j as int, j + n));
    }
    true
}

/// Up to g tokens that followed the most recent earlier occurrence of the longest n-gram
/// (n = 4 down to 1) ending the transcript; none where no n-gram recurs.
pub fn lookup(tokens: &[usize], g: usize) -> (r: Vec<usize>)
    ensures
        r@ == guess_from(tokens@, g as int, longest(tokens.len() as int)),
        forall|n: int, j: int|
            #![trigger tokens@.subrange(j, j + n)]
            g > 0 && 1 <= n <= (if tokens.len() - 1 < 4 { tokens.len() - 1 } else { 4 }) && 0 <= j < tokens.len() - n
                && tokens@.subrange(j, j + n) == tokens@.subrange(tokens.len() - n, tokens.len() as int)
                && (forall|k: int| j < k < tokens.len() - n ==> #[trigger] tokens@.subrange(k, k + n) != tokens@.subrange(tokens.len() - n, tokens.len() as int))
                && (forall|n2: int, k: int|
                    n < n2 <= (if tokens.len() - 1 < 4 { tokens.len() - 1 } else { 4 }) && 0 <= k < tokens.len() - n2
                        ==> #[trigger] tokens@.subrange(k, k + n2) != tokens@.subrange(tokens.len() - n2, tokens.len() as int))
                ==> r@ == tokens@.subrange(j + n, if j + n + g < tokens.len() { j + n + g } else { tokens.len() as int }),
        (g == 0 || forall|n2: int, k: int|
            1 <= n2 <= (if tokens.len() - 1 < 4 { tokens.len() - 1 } else { 4 }) && 0 <= k < tokens.len() - n2
                ==> #[trigger] tokens@.subrange(k, k + n2) != tokens@.subrange(tokens.len() - n2, tokens.len() as int))
            ==> r@.len() == 0,
{
    let r = guess_run(tokens, g);
    proof {
        let t = tokens@;
        assert forall|n: int, j: int|
            #![trigger t.subrange(j, j + n)]
            g > 0 && 1 <= n <= (if t.len() - 1 < 4 { t.len() - 1 } else { 4 }) && 0 <= j < t.len() - n
                && t.subrange(j, j + n) == t.subrange(t.len() - n, t.len() as int)
                && (forall|k: int| j < k < t.len() - n ==> #[trigger] t.subrange(k, k + n) != t.subrange(t.len() - n, t.len() as int))
                && (forall|n2: int, k: int|
                    n < n2 <= (if t.len() - 1 < 4 { t.len() - 1 } else { 4 }) && 0 <= k < t.len() - n2
                        ==> #[trigger] t.subrange(k, k + n2) != t.subrange(t.len() - n2, t.len() as int))
            implies r@ == t.subrange(j + n, if j + n + g < t.len() { j + n + g } else { t.len() as int }) by {
            lemma_lookup_follows_longest(t, g as int, n, j);
        }
        if g == 0 || forall|n2: int, k: int|
            1 <= n2 <= (if t.len() - 1 < 4 { t.len() - 1 } else { 4 }) && 0 <= k < t.len() - n2
                ==> #[trigger] t.subrange(k, k + n2) != t.subrange(t.len() - n2, t.len() as int) {
            lemma_lookup_nothing_recurs(t, g as int);
        }
    }
    r
}

/// The search itself: n from the longest down, each from the most recent start back.
fn guess_run(tokens: &[usize], g: usize) -> (r: Vec<usize>)
    ensures
        r@ == guess_from(tokens@, g as int, longest(tokens.len() as int)),
{
    let len = tokens.len();
    let top: usize = if len <= 1 { 0 } else if len - 1 < 4 { len - 1 } else { 4 };
    let mut n: usize = top;
    while n >= 1
        invariant
            n <= top,
            top == longest(len as int),
            len == tokens.len(),
            top < len || top == 0,
            guess_from(tokens@, g as int, top as int) == guess_from(tokens@, g as int, n as int),
        decreases n,
    {
        let mut i: usize = len - n;
        let ghost whole = last_match(tokens@, n as int, (len - n) as int);
        loop
            invariant
                i <= len - n,
                1 <= n < len,
                len == tokens.len(),
                last_match(tokens@, n as int, i as int) == whole,
                whole == last_match(tokens@, n as int, (len - n) as int),
                top == longest(len as int),
                guess_from(tokens@, g as int, top as int) == guess_from(tokens@, g as int, n as int),
            ensures
                whole < 0 || g == 0,
            decreases i,
        {
            if i == 0 {
                break;
            }
            let c = i - 1;
            let hit = same_run(tokens, c, len - n, n);
            proof {
                assert(hit == ends_like(tokens@, n as int, c as int));
            }
            if hit {
                if g > 0 {
                    let start = c + n;
                    let end = if g < len - start { start + g } else { len };
                    proof {
                        assert(whole == c as int);
                        assert(guess_from(tokens@, g as int, n as int) == tokens@.subrange(start as int, end as int));
                    }
                    let mut out: Vec<usize> = Vec::new();
                    let mut k: usize = start;
                    while k < end
                        invariant
                            start <= k <= end,
                            end <= len,
                            len == tokens.len(),
                            out@ == tokens@.subrange(start as int, k as int),
                        decreases end - k,
                    {
                        out.push(tokens[k]);
                        k += 1;
                        proof {
                            assert(out@ =~= tokens@.subrange(start as int, k as int));
                        }
                    }
                    return out;
                }
                proof {
                    assert(whole == c as int);
                }
                break;
            }
            i = c;
        }
        n -= 1;
    }
    Vec::new()
}

} // verus!
