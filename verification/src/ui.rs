//! What a board display needs: a move being built square by square, and
//! the look of a tile.
use vstd::prelude::*;

use crate::action::{action_spec, ActionSpec, TakAction};
use crate::coord::{TakCoord, TakDir};
use crate::TakPlayer;

verus! {

/// A move being entered: `take` pieces lifted at `pos`, dropped so far as
/// `drops`, in direction `dir` once one is chosen.
#[derive(Debug, Clone, PartialEq)]
pub struct TakPartialMove {
    pub take: usize,
    pub drops: Vec<usize>,
    pub pos: TakCoord,
    pub dir: Option<TakDir>,
}

/// The sum of the drop counts.
pub open spec fn sum_of(drops: Seq<usize>) -> int
    decreases drops.len(),
{
    if drops.len() == 0 {
        0
    } else {
        sum_of(drops.drop_last()) + drops.last()
    }
}

/// The move a partial move completes to: the pieces not yet dropped go on
/// the last drop. `None` without a direction or a drop, or when more pieces
/// were dropped than taken.
pub open spec fn completed(m: TakPartialMove) -> Option<ActionSpec> {
    match m.dir {
        None => None,
        Some(d) => if sum_of(m.drops@) > m.take || m.drops@.len() == 0 {
            None
        } else {
            let last = m.drops@.len() - 1;
            Some(
                (
                    m.pos,
                    Err((d, m.take, m.drops@.update(last, (m.drops@[last] + m.take - sum_of(m.drops@)) as usize))),
                ),
            )
        },
    }
}

/// The sum of the drop counts, or `None` when it overflows.
pub(crate) fn drop_total(drops: &Vec<usize>) -> (r: Option<usize>)
    ensures
        match r {
            Some(s) => s == sum_of(drops@),
            None => sum_of(drops@) > usize::MAX,
        },
{
    let mut total: usize = 0;
    for i in 0..drops.len()
        invariant
            total == sum_of(drops@.take(i as int)),
    {
        assert(drops@.take(i + 1).drop_last() =~= drops@.take(i as int));
        if drops[i] > usize::MAX - total {
            proof {
                lemma_sum_prefix(drops@, i + 1);
            }
            return None;
        }
        total = total + drops[i];
    }
    assert(drops@.take(drops@.len() as int) =~= drops@);
    Some(total)
}

/// A prefix sums to no more than the whole.
proof fn lemma_sum_prefix(drops: Seq<usize>, i: int)
    requires
        0 <= i <= drops.len(),
    ensures
        sum_of(drops.take(i)) <= sum_of(drops),
    decreases drops.len() - i,
{
    if i < drops.len() {
        lemma_sum_prefix(drops, i + 1);
        assert(drops.take(i + 1).drop_last() =~= drops.take(i));
    } else {
        assert(drops.take(i) =~= drops);
    }
}

impl TakPartialMove {
    /// A move lifting `take` pieces at `pos`, nothing dropped yet.
    pub fn new(take: usize, pos: TakCoord) -> (r: Self)
        ensures
            r.take == take,
            r.drops@.len() == 0,
            r.pos == pos,
            r.dir is None,
    {
        TakPartialMove { take, drops: Vec::new(), pos, dir: None }
    }

    /// The move this partial move completes to: see `completed`.
    pub fn try_to_action(&self) -> (r: Option<TakAction>)
        requires
            sum_of(self.drops@) <= usize::MAX,
        ensures
            match r {
                Some(a) => completed(*self) == Some(action_spec(a)),
                None => completed(*self) is None,
            },
    {
        let dir = match self.dir {
            Some(d) => d,
            None => {
                return None;
            },
        };
        let total = match drop_total(&self.drops) {
            Some(t) => t,
            None => {
                return None;
            },
        };
        if total > self.take {
            return None;
        }
        let n = self.drops.len();
        if n == 0 {
            return None;
        }
        let mut drops = self.drops.clone();
        assert(drops@ =~= self.drops@);
        proof {
            lemma_last_le_sum(self.drops@);
        }
        let last = drops[n - 1] + (self.take - total);
        drops.set(n - 1, last);
        Some(TakAction::MovePiece { take: self.take, drops, pos: self.pos, dir })
    }

    /// Whether the move is complete: a direction is chosen and all lifted
    /// pieces are dropped.
    pub fn is_valid(&self) -> (r: bool)
        ensures
            r == (self.dir is Some && sum_of(self.drops@) == self.take),
    {
        if self.dir.is_none() {
            return false;
        }
        match drop_total(&self.drops) {
            Some(t) => t == self.take,
            None => false,
        }
    }
}

/// The last drop is no more than the sum.
proof fn lemma_last_le_sum(drops: Seq<usize>)
    requires
        drops.len() > 0,
    ensures
        drops.last() <= sum_of(drops),
{
    lemma_sum_nonneg(drops.drop_last());
}

proof fn lemma_sum_nonneg(drops: Seq<usize>)
    ensures
        sum_of(drops) >= 0,
    decreases drops.len(),
{
    if drops.len() > 0 {
        lemma_sum_nonneg(drops.drop_last());
    }
}

/// How a tile looks: who owns its stack, which sides join a neighbour of
/// the same road (in the order up, down, left, right), and whether it is
/// highlighted, selectable, or part of the last action.
#[derive(Debug, Clone, PartialEq)]
pub struct TakUITile {
    pub owner: Option<TakPlayer>,
    pub bridges: Vec<(TakDir, bool)>,
    pub highlighted: bool,
    pub selectable: bool,
    pub last_action: bool,
}

/// The four corners of a tile: up-left, up-right, down-left, down-right.
pub open spec fn corners() -> Seq<(TakDir, TakDir)> {
    seq![
        (TakDir::Up, TakDir::Left),
        (TakDir::Up, TakDir::Right),
        (TakDir::Down, TakDir::Left),
        (TakDir::Down, TakDir::Right),
    ]
}

/// The corners, from the first `k`, whose two sides have no bridge.
pub open spec fn open_corners(bridges: Seq<(TakDir, bool)>, k: int) -> Seq<(TakDir, TakDir)>
    decreases k,
{
    if k <= 0 {
        Seq::empty()
    } else {
        let (a, b) = corners()[k - 1];
        open_corners(bridges, k - 1) + if !bridges.contains((a, true)) && !bridges.contains((b, true)) {
            seq![(a, b)]
        } else {
            Seq::empty()
        }
    }
}

/// Whether `bridges` holds `(d, true)`.
fn has_bridge(bridges: &Vec<(TakDir, bool)>, d: TakDir) -> (r: bool)
    ensures
        r == bridges@.contains((d, true)),
{
    for i in 0..bridges.len()
        invariant
            forall|j: int| 0 <= j < i ==> bridges@[j] != (d, true),
    {
        let (e, b) = bridges[i];
        if e == d && b {
            assert(bridges@[i as int] == (d, true));
            return true;
        }
    }
    false
}

impl TakUITile {
    /// The corners of the tile drawn rounded: those where neither side
    /// joins a neighbour, in the order up-left, up-right, down-left,
    /// down-right.
    pub fn get_center_corners(&self) -> (r: Vec<(TakDir, TakDir)>)
        ensures
            r@ == open_corners(self.bridges@, 4),
    {
        let mut r: Vec<(TakDir, TakDir)> = Vec::new();
        let pairs = [
            (TakDir::Up, TakDir::Left),
            (TakDir::Up, TakDir::Right),
            (TakDir::Down, TakDir::Left),
            (TakDir::Down, TakDir::Right),
        ];
        assert(pairs@ =~= corners());
        for k in 0..4
            invariant
                pairs@ == corners(),
                r@ == open_corners(self.bridges@, k as int),
        {
            let (a, b) = pairs[k];
            if !has_bridge(&self.bridges, a) && !has_bridge(&self.bridges, b) {
                r.push((a, b));
            }
        }
        r
    }
}

} // verus!
