//! Sums and counts over the squares of the board.

use vstd::prelude::*;

use crate::chess::{bit, bit_at, flip, on_board, Bitboard, Square};

verus! {

/// The sum of `f` over the squares before `n`.
pub open spec fn sum_upto(f: spec_fn(int) -> int, n: int) -> int
    decreases n,
{
    if n <= 0 {
        0
    } else {
        sum_upto(f, n - 1) + f(n - 1)
    }
}

/// The sum of `f` over the whole board.
pub open spec fn sum_squares(f: spec_fn(int) -> int) -> int {
    sum_upto(f, 64)
}

pub open spec fn one_if(b: bool) -> int {
    if b {
        1
    } else {
        0
    }
}

/// How many squares before `n` satisfy `p`.
pub open spec fn count_upto(p: spec_fn(int) -> bool, n: int) -> int {
    sum_upto(|s: int| one_if(p(s)), n)
}

/// How many squares of the board satisfy `p`.
pub open spec fn count_squares(p: spec_fn(int) -> bool) -> int {
    count_upto(p, 64)
}

/// Sums of functions that agree on the squares before `n` are equal.
pub proof fn lemma_sum_ext(f: spec_fn(int) -> int, g: spec_fn(int) -> int, n: int)
    requires
        forall|s: int| 0 <= s < n ==> #[trigger] f(s) == g(s),
    ensures
        sum_upto(f, n) == sum_upto(g, n),
    decreases n,
{
    if n > 0 {
        lemma_sum_ext(f, g, n - 1);
        assert(f(n - 1) == g(n - 1));
    }
}

/// Counts of predicates that agree on the squares before `n` are equal.
pub proof fn lemma_count_ext(p: spec_fn(int) -> bool, q: spec_fn(int) -> bool, n: int)
    requires
        forall|s: int| 0 <= s < n ==> #[trigger] p(s) == q(s),
    ensures
        count_upto(p, n) == count_upto(q, n),
{
    let f = |s: int| one_if(p(s));
    let g = |s: int| one_if(q(s));
    assert forall|s: int| 0 <= s < n implies #[trigger] f(s) == g(s) by {
        assert(p(s) == q(s));
    }
    lemma_sum_ext(f, g, n);
}

/// The sum of negated values is the negated sum.
pub proof fn lemma_sum_neg(f: spec_fn(int) -> int, g: spec_fn(int) -> int, n: int)
    requires
        forall|s: int| 0 <= s < n ==> #[trigger] g(s) == -f(s),
    ensures
        sum_upto(g, n) == -sum_upto(f, n),
    decreases n,
{
    if n > 0 {
        lemma_sum_neg(f, g, n - 1);
        assert(g(n - 1) == -f(n - 1));
    }
}

/// The sum of `f` over the rank that starts at square `a`.
spec fn rank_sum(f: spec_fn(int) -> int, a: int) -> int {
    f(a) + f(a + 1) + f(a + 2) + f(a + 3) + f(a + 4) + f(a + 5) + f(a + 6) + f(a + 7)
}

proof fn lemma_rank_step(f: spec_fn(int) -> int, a: int)
    requires
        a >= 0,
    ensures
        sum_upto(f, a + 8) == sum_upto(f, a) + rank_sum(f, a),
{
    reveal_with_fuel(sum_upto, 9);
}

proof fn lemma_by_ranks(f: spec_fn(int) -> int)
    ensures
        sum_squares(f) == rank_sum(f, 0) + rank_sum(f, 8) + rank_sum(f, 16) + rank_sum(f, 24) + rank_sum(f, 32)
            + rank_sum(f, 40) + rank_sum(f, 48) + rank_sum(f, 56),
{
    assert(sum_upto(f, 0) == 0);
    lemma_rank_step(f, 0);
    lemma_rank_step(f, 8);
    lemma_rank_step(f, 16);
    lemma_rank_step(f, 24);
    lemma_rank_step(f, 32);
    lemma_rank_step(f, 40);
    lemma_rank_step(f, 48);
    lemma_rank_step(f, 56);
}

/// Reflecting the board does not change a sum over all its squares.
pub proof fn lemma_sum_flip(f: spec_fn(int) -> int, g: spec_fn(int) -> int)
    requires
        forall|s: int| on_board(s) ==> #[trigger] f(s) == g(flip(s)),
    ensures
        sum_squares(f) == sum_squares(g),
{
    lemma_by_ranks(f);
    lemma_by_ranks(g);
    lemma_rank_flip(f, g, 0);
    lemma_rank_flip(f, g, 1);
    lemma_rank_flip(f, g, 2);
    lemma_rank_flip(f, g, 3);
    lemma_rank_flip(f, g, 4);
    lemma_rank_flip(f, g, 5);
    lemma_rank_flip(f, g, 6);
    lemma_rank_flip(f, g, 7);
}

proof fn lemma_rank_flip(f: spec_fn(int) -> int, g: spec_fn(int) -> int, r: int)
    requires
        0 <= r < 8,
        forall|s: int| on_board(s) ==> #[trigger] f(s) == g(flip(s)),
    ensures
        rank_sum(f, r * 8) == rank_sum(g, (7 - r) * 8),
{
    let a = r * 8;
    assert(f(a) == g(flip(a)));
    assert(f(a + 1) == g(flip(a + 1)));
    assert(f(a + 2) == g(flip(a + 2)));
    assert(f(a + 3) == g(flip(a + 3)));
    assert(f(a + 4) == g(flip(a + 4)));
    assert(f(a + 5) == g(flip(a + 5)));
    assert(f(a + 6) == g(flip(a + 6)));
    assert(f(a + 7) == g(flip(a + 7)));
}

/// Reflecting the board does not change a count over all its squares.
pub proof fn lemma_count_flip(p: spec_fn(int) -> bool, q: spec_fn(int) -> bool)
    requires
        forall|s: int| on_board(s) ==> #[trigger] p(s) == q(flip(s)),
    ensures
        count_squares(p) == count_squares(q),
{
    let f = |s: int| one_if(p(s));
    let g = |s: int| one_if(q(s));
    assert forall|s: int| on_board(s) implies #[trigger] f(s) == g(flip(s)) by {
        assert(p(s) == q(flip(s)));
    }
    lemma_sum_flip(f, g);
}

/// How many squares are in the set.
pub fn count_bits(b: Bitboard) -> (r: u32)
    ensures
        r == count_squares(|s: int| bit(b.0, s)),
        r <= 64,
{
    let ghost p = |s: int| bit(b.0, s);
    let mut n: u32 = 0;
    let mut i: u8 = 0;
    while i < 64
        invariant
            i <= 64,
            n <= i,
            p == (|s: int| bit(b.0, s)),
            n == count_upto(p, i as int),
        decreases 64 - i,
    {
        if bit_at(b.0, i) {
            n = n + 1;
        }
        i = i + 1;
    }
    n
}

/// The squares before `n` that satisfy `p`, in ascending order.
pub open spec fn list_upto(p: spec_fn(int) -> bool, n: int) -> Seq<Square>
    decreases n,
{
    if n <= 0 {
        Seq::empty()
    } else if p(n - 1) {
        list_upto(p, n - 1).push(Square((n - 1) as u8))
    } else {
        list_upto(p, n - 1)
    }
}

/// The squares of the board that satisfy `p`, in ascending order.
pub open spec fn squares_where(p: spec_fn(int) -> bool) -> Seq<Square> {
    list_upto(p, 64)
}

/// A list of squares is as long as the squares are many.
pub proof fn lemma_list_len(p: spec_fn(int) -> bool, n: int)
    requires
        n <= 64,
    ensures
        list_upto(p, n).len() == count_upto(p, n),
    decreases n,
{
    if n > 0 {
        lemma_list_len(p, n - 1);
    }
}

/// A list of squares holds just the squares that satisfy the predicate.
pub proof fn lemma_list_members(p: spec_fn(int) -> bool, n: int)
    requires
        n <= 64,
    ensures
        forall|k: int| 0 <= k < list_upto(p, n).len() ==> 0 <= (#[trigger] list_upto(p, n)[k]).0 < n && p(
            list_upto(p, n)[k].0 as int,
        ),
        forall|s: int| 0 <= s < n && #[trigger] p(s) ==> exists|k: int|
            0 <= k < list_upto(p, n).len() && #[trigger] list_upto(p, n)[k] == Square(s as u8),
    decreases n,
{
    if n > 0 {
        lemma_list_members(p, n - 1);
        let shorter = list_upto(p, n - 1);
        let whole = list_upto(p, n);
        assert forall|s: int| 0 <= s < n && #[trigger] p(s) implies exists|k: int|
            0 <= k < whole.len() && #[trigger] whole[k] == Square(s as u8) by {
            if s == n - 1 {
                assert(whole[whole.len() - 1] == Square(s as u8));
            } else {
                let k = choose|k: int| 0 <= k < shorter.len() && #[trigger] shorter[k] == Square(s as u8);
                assert(whole[k] == Square(s as u8));
            }
        }
    }
}

} // verus!
