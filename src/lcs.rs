use vstd::prelude::*;

verus! {

/// `a` is a subsequence of `b`: its items occur in `b` in the same relative
/// order, not necessarily next to each other.
pub open spec fn is_subseq(a: Seq<u8>, b: Seq<u8>) -> bool
    decreases b.len(),
{
    if a.len() == 0 {
        true
    } else if b.len() == 0 {
        false
    } else {
        (a[0] == b[0] && is_subseq(a.skip(1), b.skip(1))) || is_subseq(a, b.skip(1))
    }
}

pub open spec fn is_common_subseq(c: Seq<u8>, s: Seq<u8>, t: Seq<u8>) -> bool {
    is_subseq(c, s) && is_subseq(c, t)
}

/// Length of a longest common subsequence of `s` and `t`.
pub open spec fn lcs_len(s: Seq<u8>, t: Seq<u8>) -> nat
    decreases s.len() + t.len(),
{
    if s.len() == 0 || t.len() == 0 {
        0
    } else if s[0] == t[0] {
        1 + lcs_len(s.skip(1), t.skip(1))
    } else {
        let a = lcs_len(s.skip(1), t);
        let b = lcs_len(s, t.skip(1));
        if a >= b {
            a
        } else {
            b
        }
    }
}

/// The longest common subsequence this library chooses: walking both
/// sequences from the front, a shared head byte is always taken; otherwise the
/// source side is advanced unless skipping a target byte keeps strictly more.
pub open spec fn lcs_of(s: Seq<u8>, t: Seq<u8>) -> Seq<u8>
    decreases s.len() + t.len(),
{
    if s.len() == 0 || t.len() == 0 {
        Seq::empty()
    } else if s[0] == t[0] {
        seq![s[0]] + lcs_of(s.skip(1), t.skip(1))
    } else if lcs_len(s.skip(1), t) >= lcs_len(s, t.skip(1)) {
        lcs_of(s.skip(1), t)
    } else {
        lcs_of(s, t.skip(1))
    }
}

pub proof fn lemma_lcs_len_bound(s: Seq<u8>, t: Seq<u8>)
    ensures
        lcs_len(s, t) <= s.len(),
        lcs_len(s, t) <= t.len(),
    decreases s.len() + t.len(),
{
    if s.len() > 0 && t.len() > 0 {
        lemma_lcs_len_bound(s.skip(1), t.skip(1));
        lemma_lcs_len_bound(s.skip(1), t);
        lemma_lcs_len_bound(s, t.skip(1));
    }
}

/// The LCS length does not depend on the order of the two inputs.
pub proof fn lemma_lcs_len_symmetric(s: Seq<u8>, t: Seq<u8>)
    ensures
        lcs_len(s, t) == lcs_len(t, s),
    decreases s.len() + t.len(),
{
    if s.len() > 0 && t.len() > 0 {
        lemma_lcs_len_symmetric(s.skip(1), t.skip(1));
        lemma_lcs_len_symmetric(s.skip(1), t);
        lemma_lcs_len_symmetric(s, t.skip(1));
    }
}

/// Dropping the head of the target loses at most one byte of LCS length.
proof fn lemma_lcs_len_drop_target(s: Seq<u8>, t: Seq<u8>)
    requires
        t.len() > 0,
    ensures
        lcs_len(s, t) <= 1 + lcs_len(s, t.skip(1)),
    decreases s.len() + t.len(),
{
    if s.len() > 0 {
        if s[0] == t[0] {
            lemma_lcs_len_drop_source_monotone(s, t.skip(1));
        } else {
            lemma_lcs_len_drop_target(s.skip(1), t);
            lemma_lcs_len_drop_source_monotone(s, t.skip(1));
        }
    }
}

/// Dropping the head of the source never increases the LCS length.
proof fn lemma_lcs_len_drop_source_monotone(s: Seq<u8>, t: Seq<u8>)
    requires
        s.len() > 0,
    ensures
        lcs_len(s.skip(1), t) <= lcs_len(s, t),
    decreases s.len() + t.len(),
{
    if t.len() > 0 && s[0] == t[0] {
        lemma_lcs_len_drop_target(s.skip(1), t);
    }
}

/// No common subsequence of `s` and `t` is longer than `lcs_len(s, t)`.
pub proof fn lemma_lcs_len_is_longest(c: Seq<u8>, s: Seq<u8>, t: Seq<u8>)
    requires
        is_common_subseq(c, s, t),
    ensures
        c.len() <= lcs_len(s, t),
    decreases s.len() + t.len(),
{
    if c.len() > 0 {
        if !(c[0] == s[0] && is_subseq(c.skip(1), s.skip(1))) {
            lemma_lcs_len_is_longest(c, s.skip(1), t);
            if s[0] == t[0] {
                lemma_lcs_len_drop_target(s.skip(1), t);
            }
        } else if !(c[0] == t[0] && is_subseq(c.skip(1), t.skip(1))) {
            lemma_lcs_len_is_longest(c, s, t.skip(1));
            if s[0] == t[0] {
                lemma_lcs_len_symmetric(s, t.skip(1));
                lemma_lcs_len_drop_target(t.skip(1), s);
                lemma_lcs_len_symmetric(s.skip(1), t.skip(1));
            }
        } else {
            lemma_lcs_len_is_longest(c.skip(1), s.skip(1), t.skip(1));
        }
    }
}

/// The chosen subsequence is common to both inputs and as long as any.
pub proof fn lemma_lcs_of(s: Seq<u8>, t: Seq<u8>)
    ensures
        is_common_subseq(lcs_of(s, t), s, t),
        lcs_of(s, t).len() == lcs_len(s, t),
    decreases s.len() + t.len(),
{
    let c = lcs_of(s, t);
    if s.len() == 0 || t.len() == 0 {
    } else if s[0] == t[0] {
        lemma_lcs_of(s.skip(1), t.skip(1));
        assert(c.skip(1) =~= lcs_of(s.skip(1), t.skip(1)));
    } else if lcs_len(s.skip(1), t) >= lcs_len(s, t.skip(1)) {
        lemma_lcs_of(s.skip(1), t);
    } else {
        lemma_lcs_of(s, t.skip(1));
    }
}

/// A sequence's longest common subsequence with itself is the sequence.
pub proof fn lemma_lcs_of_self(s: Seq<u8>)
    ensures
        lcs_of(s, s) == s,
    decreases s.len(),
{
    if s.len() > 0 {
        lemma_lcs_of_self(s.skip(1));
        assert(seq![s[0]] + s.skip(1) =~= s);
    }
}

/// Dropping the head of a non-empty subsequence keeps it a subsequence.
pub proof fn lemma_subseq_drop_head(a: Seq<u8>, b: Seq<u8>)
    requires
        is_subseq(a, b),
        a.len() > 0,
    ensures
        is_subseq(a.skip(1), b),
    decreases b.len(),
{
    if a.skip(1).len() > 0 {
        if a[0] == b[0] && is_subseq(a.skip(1), b.skip(1)) {
        } else {
            lemma_subseq_drop_head(a, b.skip(1));
        }
    }
}

/// A byte of `b` that is not the head of `a` is never needed to embed `a`.
pub proof fn lemma_subseq_skip_other(a: Seq<u8>, b: Seq<u8>)
    requires
        is_subseq(a, b),
        b.len() > 0,
        a.len() == 0 || a[0] != b[0],
    ensures
        is_subseq(a, b.skip(1)),
{
}

/// Matching equal heads greedily keeps the rest embeddable.
pub proof fn lemma_subseq_match_head(a: Seq<u8>, b: Seq<u8>)
    requires
        is_subseq(a, b),
        a.len() > 0,
        b.len() > 0,
        a[0] == b[0],
    ensures
        is_subseq(a.skip(1), b.skip(1)),
{
    if !is_subseq(a.skip(1), b.skip(1)) {
        lemma_subseq_drop_head(a, b.skip(1));
    }
}

/// Skipping a run of bytes of `b` none of which is the head of `a` keeps `a`
/// embeddable.
pub proof fn lemma_subseq_skip_run(a: Seq<u8>, b: Seq<u8>, n: nat)
    requires
        is_subseq(a, b),
        n <= b.len(),
        forall|x: int| 0 <= x < n ==> a.len() == 0 || #[trigger] b[x] != a[0],
    ensures
        is_subseq(a, b.skip(n as int)),
    decreases n,
{
    if n > 0 {
        lemma_subseq_skip_other(a, b);
        assert forall|x: int| 0 <= x < n - 1 implies a.len() == 0 || #[trigger] b.skip(1)[x]
            != a[0] by {
            assert(b.skip(1)[x] == b[x + 1]);
        }
        lemma_subseq_skip_run(a, b.skip(1), (n - 1) as nat);
        assert(b.skip(1).skip(n - 1) =~= b.skip(n as int));
    } else {
        assert(b.skip(0) =~= b);
    }
}

/// Matching a common run of heads keeps the rests embeddable.
pub proof fn lemma_subseq_match_run(a: Seq<u8>, b: Seq<u8>, n: nat)
    requires
        is_subseq(a, b),
        n <= a.len(),
        n <= b.len(),
        forall|x: int| 0 <= x < n ==> #[trigger] a[x] == b[x],
    ensures
        is_subseq(a.skip(n as int), b.skip(n as int)),
    decreases n,
{
    if n > 0 {
        lemma_subseq_match_head(a, b);
        assert forall|x: int| 0 <= x < n - 1 implies #[trigger] a.skip(1)[x] == b.skip(1)[x] by {
            assert(a[x + 1] == b[x + 1]);
        }
        lemma_subseq_match_run(a.skip(1), b.skip(1), (n - 1) as nat);
        assert(a.skip(1).skip(n - 1) =~= a.skip(n as int));
        assert(b.skip(1).skip(n - 1) =~= b.skip(n as int));
    } else {
        assert(a.skip(0) =~= a);
        assert(b.skip(0) =~= b);
    }
}

/// The dynamic-programming solver for the longest common subsequence.
///
/// `table[n - i][j]` holds the LCS length of `source[i..]` and `target[j..]`,
/// where `n` is the length of the source.
pub struct Lcs<'a> {
    source: &'a [u8],
    target: &'a [u8],
    table: Vec<Vec<usize>>,
}

impl<'a> Lcs<'a> {
    pub closed spec fn source(&self) -> Seq<u8> {
        self.source@
    }

    pub closed spec fn target(&self) -> Seq<u8> {
        self.target@
    }

    pub closed spec fn wf(&self) -> bool {
        let n = self.source@.len();
        let m = self.target@.len();
        &&& self.table@.len() == n + 1
        &&& forall|r: int| 0 <= r <= n ==> #[trigger] self.table@[r]@.len() == m + 1
        &&& forall|r: int, j: int|
            0 <= r <= n && 0 <= j <= m ==> #[trigger] self.table@[r]@[j] == lcs_len(
                self.source@.skip(n - r),
                self.target@.skip(j),
            )
    }

    /// Builds the length table for `source` and `target`.
    pub fn new(source: &'a [u8], target: &'a [u8]) -> (r: Self)
        requires
            target@.len() < usize::MAX,
        ensures
            r.wf(),
            r.source() == source@,
            r.target() == target@,
    {
        let n = source.len();
        let m = target.len();
        let s = Ghost(source@);
        let t = Ghost(target@);
        let mut last: Vec<usize> = Vec::new();
        let mut j: usize = 0;
        while j <= m
            invariant
                j <= m + 1,
                m == t@.len(),
                m < usize::MAX,
                last@.len() == j,
                forall|x: int| 0 <= x < j ==> #[trigger] last@[x] == 0usize,
            decreases m + 1 - j,
        {
            last.push(0);
            j = j + 1;
        }
        assert forall|x: int| 0 <= x <= m implies #[trigger] last@[x] == lcs_len(
            s@.skip(n as int),
            t@.skip(x),
        ) by {}
        let mut table: Vec<Vec<usize>> = Vec::new();
        table.push(last);
        let mut i: usize = n;
        while i > 0
            invariant
                i <= n,
                n == s@.len(),
                m == t@.len(),
                m < usize::MAX,
                s@ == source@,
                t@ == target@,
                table@.len() == n - i + 1,
                forall|r: int| 0 <= r < table@.len() ==> #[trigger] table@[r]@.len() == m + 1,
                forall|r: int, x: int|
                    0 <= r < table@.len() && 0 <= x <= m ==> #[trigger] table@[r]@[x] == lcs_len(
                        s@.skip(n - r),
                        t@.skip(x),
                    ),
            decreases i,
        {
            i = i - 1;
            let ghost si = s@.skip(i as int);
            assert(si.skip(1) =~= s@.skip(i + 1));
            let below = &table[n - i - 1];
            assert(forall|x: int| 0 <= x <= m ==> below@[x] == lcs_len(s@.skip(i + 1), t@.skip(x)));
            let mut row: Vec<usize> = vec![0; m + 1];
            let mut j: usize = m;
            while j > 0
                invariant
                    j <= m,
                    i < n,
                    n == s@.len(),
                    m == t@.len(),
                    s@ == source@,
                    t@ == target@,
                    si == s@.skip(i as int),
                    si.skip(1) == s@.skip(i + 1),
                    below@.len() == m + 1,
                    forall|x: int| 0 <= x <= m ==> below@[x] == lcs_len(si.skip(1), t@.skip(x)),
                    row@.len() == m + 1,
                    forall|x: int| j <= x <= m ==> #[trigger] row@[x] == lcs_len(si, t@.skip(x)),
                decreases j,
            {
                j = j - 1;
                let ghost tj = t@.skip(j as int);
                assert(tj.skip(1) =~= t@.skip(j + 1));
                proof {
                    lemma_lcs_len_bound(si.skip(1), tj.skip(1));
                }
                let v = if source[i] == target[j] {
                    below[j + 1] + 1
                } else if below[j] >= row[j + 1] {
                    below[j]
                } else {
                    row[j + 1]
                };
                row.set(j, v);
            }
            assert(si =~= s@.skip(i as int));
            proof {
                lemma_lcs_len_bound(si, t@.skip(0));
            }
            assert(s@.skip(n - (n - i)) =~= si);
            table.push(row);
        }
        Lcs { source, target, table }
    }

    /// Recovers the chosen longest common subsequence from the table.
    pub fn subsequence(&self) -> (r: Vec<u8>)
        requires
            self.wf(),
        ensures
            r@ == lcs_of(self.source(), self.target()),
            is_common_subseq(r@, self.source(), self.target()),
            r@.len() == lcs_len(self.source(), self.target()),
            forall|c: Seq<u8>|
                is_common_subseq(c, self.source(), self.target()) ==> c.len() <= r@.len(),
    {
        let n = self.source.len();
        let m = self.target.len();
        let ghost s = self.source@;
        let ghost t = self.target@;
        let mut r: Vec<u8> = Vec::new();
        let mut i: usize = 0;
        let mut j: usize = 0;
        assert(s.skip(0) =~= s);
        assert(t.skip(0) =~= t);
        while i < n && j < m
            invariant
                self.wf(),
                s == self.source@,
                t == self.target@,
                n == s.len(),
                m == t.len(),
                i <= n,
                j <= m,
                r@ + lcs_of(s.skip(i as int), t.skip(j as int)) == lcs_of(s, t),
            decreases n - i + m - j,
        {
            let ghost si = s.skip(i as int);
            let ghost tj = t.skip(j as int);
            assert(si.skip(1) =~= s.skip(i + 1));
            assert(tj.skip(1) =~= t.skip(j + 1));
            if self.source[i] == self.target[j] {
                r.push(self.source[i]);
                i = i + 1;
                j = j + 1;
                assert(r@ + lcs_of(s.skip(i as int), t.skip(j as int)) =~= lcs_of(s, t));
            } else {
                assert(s.skip(n - (n - i - 1)) == si.skip(1));
                assert(t.skip(j + 1) == tj.skip(1));
                if self.table[n - i - 1][j] >= self.table[n - i][j + 1] {
                    i = i + 1;
                } else {
                    j = j + 1;
                }
            }
        }
        assert(r@ =~= lcs_of(s, t));
        proof {
            lemma_lcs_of(s, t);
            assert forall|c: Seq<u8>| is_common_subseq(c, s, t) implies c.len() <= r@.len() by {
                lemma_lcs_len_is_longest(c, s, t);
            }
        }
        r
    }
}

} // verus!
