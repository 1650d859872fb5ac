//! Array brackets: where a bracket closes, and what that depends on.

use vstd::prelude::*;
use crate::ir::instr::InstrView;

verus! {

/// The `EndArrayIter` that closes a bracket whose body starts at `pos`, with
/// `depth` further brackets open; `hi` where none closes it before `hi`.
pub open spec fn iter_end(instrs: Seq<InstrView>, pos: int, hi: int, depth: nat) -> int
    decreases hi - pos,
{
    if pos < 0 || pos >= hi {
        hi
    } else {
        match instrs[pos] {
            InstrView::BeginArrayIter { array } => iter_end(instrs, pos + 1, hi, depth + 1),
            InstrView::EndArrayIter => if depth == 0 {
                pos
            } else {
                iter_end(instrs, pos + 1, hi, (depth - 1) as nat)
            },
            _ => iter_end(instrs, pos + 1, hi, depth),
        }
    }
}

/// A bracket closes at or after the start of its body, and not behind `hi`.
pub proof fn lemma_iter_end_bounds(instrs: Seq<InstrView>, pos: int, hi: int, depth: nat)
    requires
        0 <= pos <= hi,
    ensures
        pos <= iter_end(instrs, pos, hi, depth) <= hi,
    decreases hi - pos,
{
    if pos < hi {
        match instrs[pos] {
            InstrView::BeginArrayIter { array } => lemma_iter_end_bounds(instrs, pos + 1, hi, depth + 1),
            InstrView::EndArrayIter => if depth > 0 {
                lemma_iter_end_bounds(instrs, pos + 1, hi, (depth - 1) as nat)
            },
            _ => lemma_iter_end_bounds(instrs, pos + 1, hi, depth),
        }
    }
}

/// Whether two instruction sequences hold the same instructions at `lo..hi`.
pub open spec fn agree(p: Seq<InstrView>, q: Seq<InstrView>, lo: int, hi: int) -> bool {
    forall|j: int| lo <= j < hi ==> #[trigger] p[j] == q[j]
}

/// Whether every array bracket that opens in `lo..hi` closes before `hi`.
pub open spec fn brackets_closed(instrs: Seq<InstrView>, lo: int, hi: int) -> bool {
    forall|j: int|
        lo <= j < hi && (#[trigger] instrs[j]) is BeginArrayIter ==> iter_end(instrs, j + 1, hi, 0)
            < hi
}

/// Where a bracket closes depends on the instructions up to there alone:
/// what follows them, and how far the search may go, make no difference.
pub proof fn lemma_iter_end_agree(
    p: Seq<InstrView>,
    q: Seq<InstrView>,
    pos: int,
    hp: int,
    hq: int,
    depth: nat,
)
    requires
        0 <= pos <= hp <= hq,
        agree(p, q, pos, hp),
    ensures
        iter_end(p, pos, hp, depth) < hp ==> iter_end(q, pos, hq, depth) == iter_end(p, pos, hp, depth),
        hp == hq ==> iter_end(q, pos, hq, depth) == iter_end(p, pos, hp, depth),
        iter_end(p, pos, hp, depth) == hp ==> iter_end(q, pos, hq, depth) >= hp,
    decreases hp - pos,
{
    lemma_iter_end_bounds(q, pos, hq, depth);
    if pos < hp {
        assert(p[pos] == q[pos]);
        match p[pos] {
            InstrView::BeginArrayIter { array } => {
                lemma_iter_end_agree(p, q, pos + 1, hp, hq, depth + 1);
            },
            InstrView::EndArrayIter => {
                if depth > 0 {
                    lemma_iter_end_agree(p, q, pos + 1, hp, hq, (depth - 1) as nat);
                }
            },
            _ => {
                lemma_iter_end_agree(p, q, pos + 1, hp, hq, depth);
            },
        }
    }
}

/// Behind other instructions a bracket closes where it closed, moved by
/// their number.
pub proof fn lemma_iter_end_shift(a: Seq<InstrView>, b: Seq<InstrView>, pos: int, hi: int, depth: nat)
    requires
        0 <= pos <= hi <= b.len(),
    ensures
        iter_end(a + b, a.len() + pos, a.len() + hi, depth) == a.len() + iter_end(b, pos, hi, depth),
    decreases hi - pos,
{
    if pos < hi {
        assert((a + b)[a.len() + pos] == b[pos]);
        match b[pos] {
            InstrView::BeginArrayIter { array } => {
                lemma_iter_end_shift(a, b, pos + 1, hi, depth + 1);
            },
            InstrView::EndArrayIter => {
                if depth > 0 {
                    lemma_iter_end_shift(a, b, pos + 1, hi, (depth - 1) as nat);
                }
            },
            _ => {
                lemma_iter_end_shift(a, b, pos + 1, hi, depth);
            },
        }
    }
}

/// Two sequences whose brackets are closed have them closed one behind the
/// other.
pub proof fn lemma_brackets_closed_add(a: Seq<InstrView>, b: Seq<InstrView>)
    requires
        brackets_closed(a, 0, a.len() as int),
        brackets_closed(b, 0, b.len() as int),
    ensures
        brackets_closed(a + b, 0, (a + b).len() as int),
{
    let all = a + b;
    assert forall|j: int| 0 <= j < all.len() && (#[trigger] all[j]) is BeginArrayIter implies iter_end(
        all,
        j + 1,
        all.len() as int,
        0,
    ) < all.len() by {
        if j < a.len() {
            assert(all[j] == a[j]);
            assert(agree(a, all, j + 1, a.len() as int));
            lemma_iter_end_agree(a, all, j + 1, a.len() as int, all.len() as int, 0);
        } else {
            assert(all[j] == b[j - a.len()]);
            lemma_iter_end_shift(a, b, j - a.len() + 1, b.len() as int, 0);
        }
    }
}

} // verus!
