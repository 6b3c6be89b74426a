//! Bracket nesting: which closing bracket belongs to which opening one.
//!
//! Both instruction sets have the same loop structure, so it is defined once,
//! over the sequence of bracket roles that a program has.

use vstd::prelude::*;

verus! {

/// The role that an instruction plays in the loop structure.
pub enum Bracket {
    /// Opens a loop.
    Open,
    /// Closes a loop.
    Close,
    /// Any other instruction.
    Neither,
}

/// What an instruction adds to the nesting depth.
pub open spec fn weight(bracket: Bracket) -> int {
    match bracket {
        Bracket::Open => 1,
        Bracket::Close => -1,
        Bracket::Neither => 0,
    }
}

/// Loops opened minus loops closed within `shape[lo..hi)`.
pub open spec fn depth(shape: Seq<Bracket>, lo: int, hi: int) -> int
    decreases hi - lo,
{
    if hi <= lo {
        0
    } else {
        depth(shape, lo, hi - 1) + weight(shape[hi - 1])
    }
}

/// `close` is the bracket that closes the loop opened at `open`: the first
/// position after `open` at which the depth counted from `open` is back to zero.
#[verifier::opaque]
pub open spec fn matched(shape: Seq<Bracket>, open: int, close: int) -> bool {
    &&& 0 <= open < close < shape.len()
    &&& shape[open] == Bracket::Open
    &&& shape[close] == Bracket::Close
    &&& depth(shape, open, close + 1) == 0
    &&& forall|k: int| open < k <= close ==> depth(shape, open, k) > 0
}

/// Every closing bracket closes a loop that is open, and none stays open.
pub open spec fn balanced(shape: Seq<Bracket>) -> bool {
    &&& forall|k: int| 0 <= k <= shape.len() ==> depth(shape, 0, k) >= 0
    &&& depth(shape, 0, shape.len() as int) == 0
}

/// The closing bracket of the loop opened at `open`, if the loop is closed.
pub open spec fn closer(shape: Seq<Bracket>, open: int) -> Option<int> {
    if exists|close: int| matched(shape, open, close) {
        Some(choose|close: int| matched(shape, open, close))
    } else {
        None
    }
}

/// The opening bracket of the loop closed at `close`, if there is one.
pub open spec fn opener(shape: Seq<Bracket>, close: int) -> Option<int> {
    if exists|open: int| matched(shape, open, close) {
        Some(choose|open: int| matched(shape, open, close))
    } else {
        None
    }
}

/// The depth over a range is the sum of the depths over its two parts.
pub proof fn lemma_depth_split(shape: Seq<Bracket>, lo: int, mid: int, hi: int)
    requires
        lo <= mid <= hi,
    ensures
        depth(shape, lo, hi) == depth(shape, lo, mid) + depth(shape, mid, hi),
    decreases hi - mid,
{
    if mid < hi {
        lemma_depth_split(shape, lo, mid, hi - 1);
    }
}

/// The depth over a range is at most its length, in either direction.
pub proof fn lemma_depth_bounds(shape: Seq<Bracket>, lo: int, hi: int)
    requires
        lo <= hi,
    ensures
        lo - hi <= depth(shape, lo, hi) <= hi - lo,
    decreases hi - lo,
{
    if lo < hi {
        lemma_depth_bounds(shape, lo, hi - 1);
    }
}

/// What `matched` says of the two positions themselves.
pub proof fn lemma_matched_ends(shape: Seq<Bracket>, open: int, close: int)
    requires
        matched(shape, open, close),
    ensures
        0 <= open < close < shape.len(),
        shape[open] == Bracket::Open,
        shape[close] == Bracket::Close,
{
    reveal(matched);
}

/// A loop has one closing bracket.
pub proof fn lemma_closer_unique(shape: Seq<Bracket>, open: int, c1: int, c2: int)
    requires
        matched(shape, open, c1),
        matched(shape, open, c2),
    ensures
        c1 == c2,
{
    reveal(matched);
    if c1 < c2 {
        assert(depth(shape, open, c1 + 1) > 0);
    } else if c2 < c1 {
        assert(depth(shape, open, c2 + 1) > 0);
    }
}

/// A closing bracket closes one loop.
pub proof fn lemma_opener_unique(shape: Seq<Bracket>, o1: int, o2: int, close: int)
    requires
        matched(shape, o1, close),
        matched(shape, o2, close),
    ensures
        o1 == o2,
{
    reveal(matched);
    if o1 < o2 {
        lemma_depth_split(shape, o1, o2, close + 1);
    } else if o2 < o1 {
        lemma_depth_split(shape, o2, o1, close + 1);
    }
}

/// `closer` finds the closing bracket that `matched` names.
pub proof fn lemma_closer_is(shape: Seq<Bracket>, open: int, close: int)
    requires
        matched(shape, open, close),
    ensures
        closer(shape, open) == Some(close),
{
    let found = choose|c: int| matched(shape, open, c);
    lemma_closer_unique(shape, open, found, close);
}

/// `opener` finds the opening bracket that `matched` names.
pub proof fn lemma_opener_is(shape: Seq<Bracket>, open: int, close: int)
    requires
        matched(shape, open, close),
    ensures
        opener(shape, close) == Some(open),
{
    let found = choose|o: int| matched(shape, o, close);
    lemma_opener_unique(shape, found, open, close);
}

/// The depth over one position is the weight of the bracket there.
pub proof fn lemma_depth_one(shape: Seq<Bracket>, i: int)
    ensures
        depth(shape, i, i + 1) == weight(shape[i]),
{
    assert(depth(shape, i, i) == 0);
}

/// A range without brackets has depth zero.
pub proof fn lemma_depth_flat(shape: Seq<Bracket>, lo: int, hi: int)
    requires
        lo <= hi,
        forall|k: int| lo <= k < hi ==> #[trigger] shape[k] == Bracket::Neither,
    ensures
        depth(shape, lo, hi) == 0,
    decreases hi - lo,
{
    if lo < hi {
        lemma_depth_flat(shape, lo, hi - 1);
    }
}

/// From a position up to which the loop opened at `open` has stayed open,
/// the loop is closed somewhere before `end`, if the depth is back to zero
/// or below at `end`.
proof fn lemma_closes(shape: Seq<Bracket>, open: int, upto: int, end: int) -> (close: int)
    requires
        0 <= open < upto <= end <= shape.len(),
        shape[open] == Bracket::Open,
        forall|k: int| open < k <= upto ==> depth(shape, open, k) > 0,
        depth(shape, open, end) <= 0,
    ensures
        matched(shape, open, close),
        close < end,
    decreases end - upto,
{
    reveal(matched);
    assert(depth(shape, open, upto) > 0);
    if depth(shape, open, upto + 1) == 0 {
        upto
    } else {
        lemma_closes(shape, open, upto + 1, end)
    }
}

/// Down to a position from which the loop closed at `close` has stayed
/// open, the loop is opened somewhere, if the depth of the whole prefix is
/// not negative. `end` is the position behind `close`.
proof fn lemma_opens(shape: Seq<Bracket>, from: int, close: int, end: int) -> (open: int)
    requires
        0 <= from <= close < shape.len(),
        end == close + 1,
        shape[close] == Bracket::Close,
        forall|k: int| from <= k <= close ==> depth(shape, k, end) < 0,
        depth(shape, 0, end) >= 0,
    ensures
        matched(shape, open, close),
    decreases from,
{
    reveal(matched);
    if from == 0 {
        0
    } else {
        lemma_depth_split(shape, from - 1, from, end);
        lemma_depth_one(shape, from - 1);
        let open = from - 1;
        if depth(shape, open, end) == 0 {
            assert forall|k: int| open < k <= close implies depth(shape, open, k) > 0 by {
                lemma_depth_split(shape, open, k, end);
            }
            open
        } else {
            lemma_opens(shape, from - 1, close, end)
        }
    }
}

/// In a balanced program every bracket has its partner.
pub proof fn lemma_balanced_pairs(shape: Seq<Bracket>, i: int)
    requires
        balanced(shape),
        0 <= i < shape.len(),
    ensures
        shape[i] == Bracket::Open ==> closer(shape, i) is Some,
        shape[i] == Bracket::Close ==> opener(shape, i) is Some,
{
    if shape[i] == Bracket::Open {
        lemma_depth_one(shape, i);
        lemma_depth_split(shape, 0, i, shape.len() as int);
        lemma_closes(shape, i, i + 1, shape.len() as int);
    } else if shape[i] == Bracket::Close {
        lemma_depth_one(shape, i);
        lemma_opens(shape, i, i, i + 1);
    }
}

} // verus!
