//! Searching and counting in a registry of line breaks.

use vstd::prelude::*;
use crate::buffer::{entry_ok, ordered};
use crate::line::Break;
use crate::table::{breaks_within, first_break_ok, within};

verus! {

/// Two registries that agree on their first `n` entries, and two ranges
/// that hold the same of those entries, give the same breaks.
pub proof fn lemma_within_agree(
    r1: Seq<(usize, Break)>,
    s1: int,
    e1: int,
    r2: Seq<(usize, Break)>,
    s2: int,
    e2: int,
    n: int,
)
    requires
        0 <= n <= r1.len(),
        n <= r2.len(),
        forall|k: int|
            0 <= k < n ==> (#[trigger] r1[k]) == r2[k] && within(r1[k], s1, e1) == within(
                r2[k],
                s2,
                e2,
            ),
    ensures
        breaks_within(r1, s1, e1, n) == breaks_within(r2, s2, e2, n),
    decreases n,
{
    if n > 0 {
        lemma_within_agree(r1, s1, e1, r2, s2, e2, n - 1);
        assert(r1[n - 1] == r2[n - 1]);
    }
}

/// Entries outside the range add nothing.
pub proof fn lemma_within_skip(reg: Seq<(usize, Break)>, start: int, end: int, a: int, n: int)
    requires
        0 <= a <= n <= reg.len(),
        forall|k: int| a <= k < n ==> !within(#[trigger] reg[k], start, end),
    ensures
        breaks_within(reg, start, end, n) == breaks_within(reg, start, end, a),
    decreases n - a,
{
    if a < n {
        lemma_within_skip(reg, start, end, a, n - 1);
    }
}

/// Entries that all lie within the range are all added.
pub proof fn lemma_within_take(reg: Seq<(usize, Break)>, start: int, end: int, a: int, n: int)
    requires
        0 <= a <= n <= reg.len(),
        forall|k: int| a <= k < n ==> within(#[trigger] reg[k], start, end),
    ensures
        breaks_within(reg, start, end, n) == breaks_within(reg, start, end, a) + reg.subrange(
            a,
            n,
        ),
    decreases n - a,
{
    if a < n {
        lemma_within_take(reg, start, end, a, n - 1);
        assert(reg.subrange(a, n) =~= reg.subrange(a, n - 1).push(reg[n - 1]));
        assert(breaks_within(reg, start, end, n) =~= breaks_within(reg, start, end, a)
            + reg.subrange(a, n));
    } else {
        assert(breaks_within(reg, start, end, n) =~= breaks_within(reg, start, end, a)
            + reg.subrange(a, n));
    }
}

/// The two parts of a range hold no more breaks than the range, and as many
/// where no break lies across the cut.
pub proof fn lemma_within_parts(reg: Seq<(usize, Break)>, start: int, cut: int, end: int, n: int)
    requires
        0 <= n <= reg.len(),
        start <= cut <= end,
    ensures
        breaks_within(reg, start, cut, n).len() + breaks_within(reg, cut, end, n).len()
            <= breaks_within(reg, start, end, n).len(),
        (forall|k: int|
            0 <= k < n && within(#[trigger] reg[k], start, end) ==> !(reg[k].0 < cut < reg[k].0
                + reg[k].1.spec_len_bytes())) ==> breaks_within(reg, start, cut, n).len() + breaks_within(reg, cut, end, n).len()
            == breaks_within(reg, start, end, n).len(),
    decreases n,
{
    if n > 0 {
        lemma_within_parts(reg, start, cut, end, n - 1);
    }
}

/// A narrower range holds no more breaks.
pub proof fn lemma_within_narrow(
    reg: Seq<(usize, Break)>,
    start: int,
    end: int,
    s2: int,
    e2: int,
    n: int,
)
    requires
        0 <= n <= reg.len(),
        start <= s2,
        e2 <= end,
    ensures
        breaks_within(reg, s2, e2, n).len() <= breaks_within(reg, start, end, n).len(),
    decreases n,
{
    if n > 0 {
        lemma_within_narrow(reg, start, end, s2, e2, n - 1);
    }
}

/// The breaks among the first `j` entries come first among the breaks of
/// the first `n`.
pub proof fn lemma_within_prefix(reg: Seq<(usize, Break)>, start: int, end: int, j: int, n: int)
    requires
        0 <= j <= n <= reg.len(),
    ensures
        breaks_within(reg, start, end, j).len() <= breaks_within(reg, start, end, n).len(),
        forall|m: int|
            0 <= m < breaks_within(reg, start, end, j).len() ==> #[trigger] breaks_within(
                reg,
                start,
                end,
                n,
            )[m] == breaks_within(reg, start, end, j)[m],
    decreases n - j,
{
    if j < n {
        lemma_within_prefix(reg, start, end, j, n - 1);
    }
}

/// The breaks within a range are entries of the registry that lie within
/// the range, each where the one before it has ended, or later; and none
/// reaches beyond where the next entries of the registry start.
#[verifier::rlimit(40)]
pub proof fn lemma_within_ordered(reg: Seq<(usize, Break)>, start: int, end: int, n: int)
    requires
        0 <= n <= reg.len(),
        ordered(reg),
    ensures
        ordered(breaks_within(reg, start, end, n)),
        forall|m: int|
            0 <= m < breaks_within(reg, start, end, n).len() ==> within(
                #[trigger] breaks_within(reg, start, end, n)[m],
                start,
                end,
            ),
        forall|m: int, k: int|
            0 <= m < breaks_within(reg, start, end, n).len() && n <= k < reg.len() ==> (
            #[trigger] breaks_within(reg, start, end, n)[m]).0 + breaks_within(
                reg,
                start,
                end,
                n,
            )[m].1.spec_len_bytes() <= (#[trigger] reg[k]).0,
    decreases n,
{
    if n > 0 {
        lemma_within_ordered(reg, start, end, n - 1);
        let less = breaks_within(reg, start, end, n - 1);
        let all = breaks_within(reg, start, end, n);
        assert forall|m: int, k: int| 0 <= m < all.len() && n <= k < reg.len() implies (
        #[trigger] all[m]).0 + all[m].1.spec_len_bytes() <= (#[trigger] reg[k]).0 by {
            if m < less.len() {
                assert(all[m] == less[m]);
            } else {
                assert(all[m] == reg[n - 1]);
            }
        }
        assert forall|a: int, b: int| 0 <= a < b < all.len() implies (#[trigger] all[a]).0
            + all[a].1.spec_len_bytes() <= (#[trigger] all[b]).0 by {
            if b < less.len() {
                assert(all[a] == less[a] && all[b] == less[b]);
            } else {
                assert(all[a] == less[a]);
                assert(all[b] == reg[n - 1]);
            }
        }
    }
}

/// Where each entry of the registry lies on a line break of `bytes`, so
/// does each break within a range.
pub proof fn lemma_within_fits(
    bytes: Seq<u8>,
    reg: Seq<(usize, Break)>,
    start: int,
    end: int,
    n: int,
)
    requires
        0 <= n <= reg.len(),
        forall|k: int| 0 <= k < reg.len() ==> entry_ok(bytes, #[trigger] reg[k]),
    ensures
        forall|m: int|
            0 <= m < breaks_within(reg, start, end, n).len() ==> entry_ok(
                bytes,
                #[trigger] breaks_within(reg, start, end, n)[m],
            ),
    decreases n,
{
    if n > 0 {
        lemma_within_fits(bytes, reg, start, end, n - 1);
        let less = breaks_within(reg, start, end, n - 1);
        let all = breaks_within(reg, start, end, n);
        assert forall|m: int| 0 <= m < all.len() implies entry_ok(
            bytes,
            #[trigger] all[m],
        ) by {
            if m < less.len() {
                assert(all[m] == less[m]);
            } else {
                assert(all[m] == reg[n - 1]);
            }
        }
    }
}

/// The index in `reg` of the break of index `m` within the bytes from
/// `start` to `end`, given the index of the first entry that starts there.
#[verifier::rlimit(40)]
pub fn nth_within(
    reg: &[(usize, Break)],
    first: Option<usize>,
    start: usize,
    end: usize,
    m: usize,
) -> (j: usize)
    requires
        ordered(reg@),
        first_break_ok(reg@, start as int, end as int, first),
        m < breaks_within(reg@, start as int, end as int, reg@.len() as int).len(),
    ensures
        j < reg@.len(),
        reg@[j as int] == breaks_within(reg@, start as int, end as int, reg@.len() as int)[m as int],
{
    let total: usize = reg.len();
    let mut j: usize = match first {
        Some(i) => i,
        None => 0,
    };
    proof {
        if first is Some {
            lemma_within_skip(reg@, start as int, end as int, 0, j as int);
        }
    }
    let mut seen: usize = 0;
    while j < total
        invariant
            total == reg@.len(),
            0 <= j <= total,
            seen <= m,
            seen == breaks_within(reg@, start as int, end as int, j as int).len(),
            m < breaks_within(reg@, start as int, end as int, total as int).len(),
        decreases total - j,
    {
        let entry: (usize, Break) = reg[j];
        if entry.0 >= start && entry.0 <= end && entry.1.len_bytes() <= end - entry.0 {
            if seen == m {
                proof {
                    lemma_within_prefix(reg@, start as int, end as int, j + 1, total as int);
                }
                return j;
            }
            seen = seen + 1;
        }
        j = j + 1;
    }
    0
}

/// The index of the first entry of `reg`, from index `from` on, that starts
/// within the bytes from `start` to `end`.
pub fn find_first_break(reg: &[(usize, Break)], from: usize, start: usize, end: usize) -> (first:
    Option<usize>)
    requires
        ordered(reg@),
        forall|j: int| 0 <= j < from && j < reg@.len() ==> !(start <= (#[trigger] reg@[j]).0 < end),
    ensures
        first_break_ok(reg@, start as int, end as int, first),
{
    let mut j: usize = from;
    while j < reg.len()
        invariant
            ordered(reg@),
            forall|k: int| 0 <= k < j && k < reg@.len() ==> !(start <= (#[trigger] reg@[k]).0 < end),
        decreases reg@.len() - j,
    {
        let offset: usize = reg[j].0;
        if offset >= end {
            assert forall|k: int| 0 <= k < reg@.len() implies !(start <= (#[trigger] reg@[k]).0
                < end) by {
                if k > j {
                    assert(reg@[j as int].0 + reg@[j as int].1.spec_len_bytes() <= reg@[k].0);
                }
            }
            return None;
        }
        if offset >= start {
            return Some(j);
        }
        j = j + 1;
    }
    None
}

/// The number of entries of `reg` that lie wholly within the bytes from
/// `start` to `end`, given the index of the first entry that starts there.
#[verifier::rlimit(40)]
pub fn count_within(reg: &[(usize, Break)], first: Option<usize>, start: usize, end: usize) -> (n:
    usize)
    requires
        ordered(reg@),
        first_break_ok(reg@, start as int, end as int, first),
    ensures
        n == breaks_within(reg@, start as int, end as int, reg@.len() as int).len(),
{
    let total: usize = reg.len();
    let mut j: usize = match first {
        Some(i) => i,
        None => {
            proof {
                lemma_within_skip(reg@, start as int, end as int, 0, total as int);
            }
            return 0;
        },
    };
    proof {
        lemma_within_skip(reg@, start as int, end as int, 0, j as int);
    }
    let mut n: usize = 0;
    while j < total
        invariant
            total == reg@.len(),
            ordered(reg@),
            0 <= j <= total,
            n <= j,
            n == breaks_within(reg@, start as int, end as int, j as int).len(),
            forall|k: int| 0 <= k < j ==> (#[trigger] reg@[k]).0 < end,
            first is Some,
            first->0 <= j,
            first_break_ok(reg@, start as int, end as int, first),
        decreases total - j,
    {
        let entry: (usize, Break) = reg[j];
        if entry.0 >= end {
            proof {
                assert forall|k: int| j <= k < total implies !within(
                    #[trigger] reg@[k],
                    start as int,
                    end as int,
                ) by {
                    if k > j {
                        assert(reg@[j as int].0 + reg@[j as int].1.spec_len_bytes() <= reg@[k].0);
                    }
                }
                lemma_within_skip(reg@, start as int, end as int, j as int, total as int);
            }
            return n;
        }
        proof {
            let i = first->0 as int;
            if j > i {
                assert(reg@[i].0 + reg@[i].1.spec_len_bytes() <= reg@[j as int].0);
            }
            assert(start <= entry.0);
        }
        if entry.1.len_bytes() <= end - entry.0 {
            n = n + 1;
        }
        j = j + 1;
    }
    n
}

} // verus!
