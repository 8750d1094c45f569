//! Splitting the outer digit's range `[0, 2048)` among workers.
use vstd::prelude::*;
use crate::odometer::RADIX;

verus! {

/// Consecutive half-open ranges that start at 0, end at 2048, and each end
/// where the next one starts.
pub open spec fn is_chain(rs: Seq<(usize, usize)>) -> bool {
    &&& rs.len() >= 1
    &&& rs[0].0 == 0
    &&& rs[rs.len() - 1].1 == 2048
    &&& forall|i: int| 0 <= i < rs.len() ==> #[trigger] rs[i].0 <= rs[i].1
    &&& forall|i: int| 0 <= i < rs.len() - 1 ==> #[trigger] rs[i].1 == rs[i + 1].0
}

pub open spec fn in_range(r: (usize, usize), x: int) -> bool {
    r.0 <= x < r.1
}

/// Some range of `rs` holds `x`.
pub open spec fn covered(rs: Seq<(usize, usize)>, x: int) -> bool {
    exists|i: int| 0 <= i < rs.len() && #[trigger] in_range(rs[i], x)
}

/// How many outer values each worker but the last one gets.
pub open spec fn share(n: usize) -> int {
    2048int / (n as int)
}

/// Cuts `[0, 2048)` into `n` ranges: each of the first `n - 1` workers gets
/// `2048 / n` values, and the last worker gets the rest up to 2048.
pub fn partition(n: usize) -> (rs: Vec<(usize, usize)>)
    requires
        n >= 1,
    ensures
        rs@.len() == n,
        is_chain(rs@),
        forall|i: int|
            0 <= i < n - 1 ==> #[trigger] rs@[i] == ((i * share(n)) as usize, ((i + 1) * share(n)) as usize),
{
    let per: usize = RADIX / n;
    let mut rs: Vec<(usize, usize)> = Vec::new();
    let mut i: usize = 0;
    proof {
        assert(per * n <= 2048) by (nonlinear_arith)
            requires
                per == share(n),
                n >= 1,
        ;
    }
    while i + 1 < n
        invariant
            1 <= n,
            i < n,
            per * n <= 2048,
            per == share(n),
            rs@.len() == i,
            forall|j: int| 0 <= j < i ==> #[trigger] rs@[j] == ((j * per) as usize, ((j + 1) * per) as usize),
        decreases n - i,
    {
        proof {
            assert(i * per <= (i + 1) * per && (i + 1) * per <= 2048) by (nonlinear_arith)
                requires
                    i + 1 < n,
                    per * n <= 2048,
            ;
        }
        rs.push((i * per, (i + 1) * per));
        i = i + 1;
    }
    proof {
        assert(i * per <= 2048) by (nonlinear_arith)
            requires
                i < n,
                per * n <= 2048,
        ;
    }
    rs.push((i * per, RADIX));
    proof {
        let s = rs@;
        assert forall|j: int| 0 <= j < s.len() - 1 implies #[trigger] s[j].1 == s[j + 1].0 by {
            assert(s[j] == ((j * per) as usize, ((j + 1) * per) as usize));
            if j + 1 < i {
                assert(s[j + 1] == (((j + 1) * per) as usize, ((j + 2) * per) as usize));
            }
        }
        assert forall|j: int| 0 <= j < s.len() implies #[trigger] s[j].0 <= s[j].1 by {
            if j < i {
                assert(s[j] == ((j * per) as usize, ((j + 1) * per) as usize));
                assert(j * per <= (j + 1) * per) by (nonlinear_arith);
                assert((j + 1) * per <= 2048) by (nonlinear_arith)
                    requires
                        j + 1 < n,
                        per * n <= 2048,
                ;
            }
        }
        if i > 0 {
            assert(s[0] == ((0 * per) as usize, ((0 + 1) * per) as usize));
        }
    }
    rs
}

/// Ranges earlier in a chain end no later than later ones start.
proof fn lemma_chain_ordered(rs: Seq<(usize, usize)>, i: int, j: int)
    requires
        is_chain(rs),
        0 <= i < j < rs.len(),
    ensures
        rs[i].1 <= rs[j].0,
    decreases j - i,
{
    assert(rs[i].1 == rs[i + 1].0);
    if i + 1 < j {
        assert(rs[i + 1].0 <= rs[i + 1].1);
        lemma_chain_ordered(rs, i + 1, j);
    }
}

/// Every value below 2048 that is at least the start of range `i` lies in some
/// range from `i` on.
proof fn lemma_chain_covers(rs: Seq<(usize, usize)>, i: int, x: int)
    requires
        is_chain(rs),
        0 <= i < rs.len(),
        rs[i].0 <= x < 2048,
    ensures
        exists|j: int| i <= j < rs.len() && in_range(#[trigger] rs[j], x),
    decreases rs.len() - i,
{
    if x < rs[i].1 {
        assert(in_range(rs[i], x));
    } else {
        assert(i + 1 < rs.len());
        assert(rs[i].1 == rs[i + 1].0);
        lemma_chain_covers(rs, i + 1, x);
    }
}

/// The ranges of a partition do not overlap, and together they hold exactly
/// the values `0..2048`.
pub proof fn partition_is_exact(rs: Seq<(usize, usize)>)
    requires
        is_chain(rs),
    ensures
        forall|i: int, j: int, x: int|
            0 <= i < j < rs.len() && #[trigger] in_range(rs[i], x) ==> !#[trigger] in_range(rs[j], x),
        forall|x: int| #[trigger] covered(rs, x) <==> 0 <= x < 2048,
{
    let n = rs.len() as int;
    assert forall|i: int, j: int, x: int|
        0 <= i < j < n && #[trigger] in_range(rs[i], x) implies !#[trigger] in_range(rs[j], x) by {
        lemma_chain_ordered(rs, i, j);
    }
    assert forall|x: int| #[trigger] covered(rs, x) <==> 0 <= x < 2048 by {
        if 0 <= x < 2048 {
            lemma_chain_covers(rs, 0, x);
        }
        if exists|i: int| 0 <= i < n && #[trigger] in_range(rs[i], x) {
            let i = choose|i: int| 0 <= i < n && #[trigger] in_range(rs[i], x);
            if i > 0 {
                lemma_chain_ordered(rs, 0, i);
            }
            if i < n - 1 {
                lemma_chain_ordered(rs, i, n - 1);
            }
            assert(rs[0].0 <= rs[0].1);
            assert(rs[n - 1].0 <= rs[n - 1].1);
        }
    }
}

} // verus!
