//! Reading the forward's output: logits are bf16 patterns ordered as signed magnitudes.

use vstd::prelude::*;

verus! {

/// A pattern's place in the bf16 order: its magnitude, negated when the sign bit is set.
pub open spec fn order_key(p: u16) -> int {
    let mag = p as int % 32768;
    if p as int >= 32768 {
        -mag
    } else {
        mag
    }
}

/// bf16 ordering on patterns: true if a < b as signed magnitudes.
pub fn lt(a: u16, b: u16) -> (r: bool)
    ensures
        r == (order_key(a) < order_key(b)),
{
    let ka: i32 = if a & 0x8000 != 0 { -((a & 0x7FFF) as i32) } else { (a & 0x7FFF) as i32 };
    let kb: i32 = if b & 0x8000 != 0 { -((b & 0x7FFF) as i32) } else { (b & 0x7FFF) as i32 };
    assert((a & 0x7FFF) == a % 32768 && ((a & 0x8000) != 0) == (a >= 32768)) by (bit_vector);
    assert((b & 0x7FFF) == b % 32768 && ((b & 0x8000) != 0) == (b >= 32768)) by (bit_vector);
    ka < kb
}

/// The index of the first greatest logit (0 for an empty slice).
pub fn argmax(logits: &[u16]) -> (best: usize)
    ensures
        logits.len() == 0 ==> best == 0,
        logits.len() > 0 ==> {
            &&& best < logits.len()
            &&& forall|i: int| 0 <= i < logits.len() ==> order_key(#[trigger] logits[i]) <= order_key(logits[best as int])
            &&& forall|i: int| 0 <= i < best ==> order_key(#[trigger] logits[i]) < order_key(logits[best as int])
        },
{
    let mut best: usize = 0;
    let mut i: usize = 0;
    while i < logits.len()
        invariant
            0 <= i <= logits.len(),
            logits.len() > 0 ==> best < logits.len(),
            best <= i || (i == 0 && best == 0),
            logits.len() == 0 ==> best == 0,
            i > 0 ==> forall|j: int| 0 <= j < i ==> order_key(#[trigger] logits[j]) <= order_key(logits[best as int]),
            i > 0 ==> best < i,
            forall|j: int| 0 <= j < best ==> order_key(#[trigger] logits[j]) < order_key(logits[best as int]),
        decreases logits.len() - i,
    {
        if lt(logits[best], logits[i]) {
            best = i;
        }
        i += 1;
    }
    best
}

/// `a` comes before `b` in the ranking: a greater logit first, the lower index on a tie.
pub open spec fn ranks_before(logits: Seq<u16>, a: int, b: int) -> bool {
    ||| order_key(logits[a]) > order_key(logits[b])
    ||| (order_key(logits[a]) == order_key(logits[b]) && a < b)
}

/// How many of the first `j` flags are down.
pub open spec fn n_free(s: Seq<bool>, j: int) -> nat
    decreases j,
{
    if j <= 0 {
        0
    } else {
        n_free(s, j - 1) + if !s[j - 1] { 1nat } else { 0nat }
    }
}

proof fn lemma_n_free_raise(s: Seq<bool>, i: int, j: int)
    requires
        0 <= i < s.len(),
        0 <= j <= s.len(),
        !s[i],
    ensures
        j > i ==> n_free(s.update(i, true), j) + 1 == n_free(s, j),
        j <= i ==> n_free(s.update(i, true), j) == n_free(s, j),
    decreases j,
{
    if j > 0 {
        lemma_n_free_raise(s, i, j - 1);
    }
}

proof fn lemma_n_free_none(s: Seq<bool>, j: int)
    requires
        0 <= j <= s.len(),
        forall|t: int| 0 <= t < j ==> #[trigger] s[t],
    ensures
        n_free(s, j) == 0,
    decreases j,
{
    if j > 0 {
        lemma_n_free_none(s, j - 1);
    }
}

proof fn lemma_n_free_all(s: Seq<bool>, j: int)
    requires
        0 <= j <= s.len(),
        forall|t: int| 0 <= t < j ==> !#[trigger] s[t],
    ensures
        n_free(s, j) == j,
    decreases j,
{
    if j > 0 {
        lemma_n_free_all(s, j - 1);
    }
}

/// The first `min(k, len)` indices of the logits in rank order: greatest logit first, the lower
/// index first among equal logits.
pub fn topk(logits: &[u16], k: usize) -> (r: Vec<usize>)
    ensures
        r.len() == if k < logits.len() { k as int } else { logits.len() as int },
        forall|i: int| 0 <= i < r.len() ==> #[trigger] r[i] < logits.len(),
        forall|i: int, j: int|
            0 <= i < j < r.len() ==> ranks_before(logits@, #[trigger] r[i] as int, #[trigger] r[j] as int),
        forall|i: int, t: int|
            0 <= i < r.len() && 0 <= t < logits.len() && !r@.contains(t as usize) ==> #[trigger] ranks_before(logits@, r[i] as int, t),
{
    let n = logits.len();
    let want: usize = if k < n { k } else { n };
    let mut taken: Vec<bool> = Vec::new();
    while taken.len() < n
        invariant
            taken.len() <= n,
            forall|t: int| 0 <= t < taken.len() ==> !#[trigger] taken[t],
        decreases n - taken.len(),
    {
        taken.push(false);
    }
    proof {
        lemma_n_free_all(taken@, n as int);
    }
    let mut r: Vec<usize> = Vec::new();
    while r.len() < want
        invariant
            want == (if k < n { k as int } else { n as int }),
            n == logits.len(),
            taken.len() == n,
            r.len() <= want,
            n_free(taken@, n as int) + r.len() == n,
            forall|t: int| 0 <= t < n ==> (#[trigger] taken[t] <==> r@.contains(t as usize)),
            forall|i: int| 0 <= i < r.len() ==> #[trigger] r[i] < n,
            forall|i: int, j: int|
                0 <= i < j < r.len() ==> ranks_before(logits@, #[trigger] r[i] as int, #[trigger] r[j] as int),
            forall|i: int, t: int|
                0 <= i < r.len() && 0 <= t < n && !taken[t] ==> #[trigger] ranks_before(logits@, r[i] as int, t),
        decreases want - r.len(),
    {
        let mut best: usize = 0;
        let mut found = false;
        let mut t: usize = 0;
        while t < n
            invariant
                0 <= t <= n,
                n == logits.len(),
                taken.len() == n,
                found ==> best < t && !taken[best as int],
                !found ==> forall|u: int| 0 <= u < t ==> #[trigger] taken[u],
                found ==> forall|u: int|
                    0 <= u < t && !#[trigger] taken[u] && u != best ==> ranks_before(logits@, best as int, u),
            decreases n - t,
        {
            if !taken[t] {
                if !found || lt(logits[best], logits[t]) {
                    best = t;
                    found = true;
                }
            }
            t += 1;
        }
        if found {
            let ghost r0 = r@;
            let ghost tk0 = taken@;
            proof {
                lemma_n_free_raise(taken@, best as int, n as int);
            }
            taken.set(best, true);
            r.push(best);
            proof {
                assert(r@ == r0.push(best));
                assert forall|u: int| 0 <= u < n implies (#[trigger] taken[u] <==> r@.contains(u as usize)) by {
                    if u == best {
                        assert(r@[r.len() - 1] == best);
                    } else {
                        assert(taken[u] == tk0[u]);
                        if r0.contains(u as usize) {
                            let w = choose|w: int| 0 <= w < r0.len() && r0[w] == u as usize;
                            assert(r@[w] == u as usize);
                        }
                        if r@.contains(u as usize) {
                            let w = choose|w: int| 0 <= w < r@.len() && r@[w] == u as usize;
                            assert(w < r0.len());
                            assert(r0[w] == u as usize);
                        }
                    }
                }
                assert forall|i: int, j: int| 0 <= i < j < r.len() implies ranks_before(
                    logits@,
                    #[trigger] r[i] as int,
                    #[trigger] r[j] as int,
                ) by {
                    if j < r.len() - 1 {
                        assert(r[i] == r0[i] && r[j] == r0[j]);
                    } else {
                        assert(r[i] == r0[i] && r[j] == best);
                        assert(!tk0[best as int]);
                    }
                }
                assert forall|i: int, t: int|
                    0 <= i < r.len() && 0 <= t < n && !taken[t] implies #[trigger] ranks_before(logits@, r[i] as int, t) by {
                    assert(t != best);
                    assert(!tk0[t]);
                    if i < r.len() - 1 {
                        assert(r[i] == r0[i]);
                    } else {
                        assert(r[i] == best);
                    }
                }
            }
        } else {
            proof {
                lemma_n_free_none(taken@, n as int);
                assert(false);
            }
        }
    }
    proof {
        assert forall|i: int, t: int|
            0 <= i < r.len() && 0 <= t < logits.len() && !r@.contains(t as usize) implies #[trigger] ranks_before(logits@, r[i] as int, t) by {
            assert(!taken[t]);
        }
    }
    r
}

} // verus!
