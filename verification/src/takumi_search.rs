//! Support for the engine's search: how long to think, and a table of
//! positions already searched, indexed by the low bits of their hash.
use vstd::prelude::*;

use crate::takumi::Board;
use crate::takumi_movegen::Action;

verus! {

/// How much of the clock to use for a move, in milliseconds: one second in
/// the opening (the first six plies), else three, plus a share of the time
/// left (the time left over the moves expected to remain, at least twenty,
/// plus a third of the plies played) and the increment; at most thirty
/// seconds.
pub open spec fn time_to_use(ply: int, time_remaining: int, increment: int) -> int {
    let t = unclamped_time(ply, time_remaining) + increment;
    if t < 30000 {
        t
    } else {
        30000
    }
}

/// The moves expected to remain after `ply` plies.
pub open spec fn moves_left(ply: int) -> int {
    (if ply < 20 {
        20
    } else {
        ply
    }) + ply / 3
}

/// The time to use before the increment and the cap.
pub open spec fn unclamped_time(ply: int, time_remaining: int) -> int {
    if ply < 6 {
        1000
    } else {
        3000 + time_remaining / moves_left(ply)
    }
}

/// How much of the clock to use for the next move.
pub fn determine_time_to_use(board: &Board, time_remaining: u64, increment: u64) -> (r: u64)
    requires
        board.ply_index + board.ply_index / 3 <= usize::MAX,
        unclamped_time(board.ply_index as int, time_remaining as int) + increment <= u64::MAX,
    ensures
        r == time_to_use(board.ply_index as int, time_remaining as int, increment as int),
{
    let ply = board.ply_index;
    let base_time: u64 = if ply < 6 {
        1000
    } else {
        3000
    };
    let estimated_remaining_moves = (if ply < 20 {
        20
    } else {
        ply
    }) + (ply / 3);
    let time_bank_time = if ply < 6 {
        0
    } else {
        time_remaining / estimated_remaining_moves as u64
    };
    proof {
        if ply >= 6 {
            assert(time_bank_time <= time_remaining);
        }
    }
    let time_to_use = base_time + time_bank_time + increment;
    if time_to_use < 30000 {
        time_to_use
    } else {
        30000
    }
}

/// What an entry of the table records of its position's score: exact, at
/// most (the search failed low) or at least (it failed high).
#[derive(Debug, Clone, Copy, PartialEq, Eq, Hash, Structural)]
pub enum TranspositionNodeType {
    Exact,
    Alpha,
    Beta,
}

/// A searched position: its hash, score, the depth searched, the ply it was
/// at, what the score means, and the best move found.
#[derive(Debug, Clone, Copy, PartialEq, Structural)]
pub struct TranspositionEntry {
    pub zobrist: u64,
    pub score: i32,
    pub depth: usize,
    pub ply: usize,
    pub node_type: TranspositionNodeType,
    pub best_move: Option<Action>,
}

/// A table of `2^size` slots of searched positions.
#[derive(Debug, Clone, PartialEq)]
pub struct TranspositionTable {
    pub size: usize,
    pub entries: Vec<Option<TranspositionEntry>>,
}

/// The slot of a hash in a table of `2^size` slots: its low `size` bits.
pub open spec fn slot(zobrist: u64, size: usize) -> int {
    (zobrist & (((1u64 << (size as u64)) - 1u64) as u64)) as int
}

/// Whether an entry replaces what a slot holds: an empty slot takes it; a
/// slot searched at least as deep keeps its entry for the same position or
/// for a position at a later or equal ply.
pub open spec fn replaces(existing: Option<TranspositionEntry>, entry: TranspositionEntry) -> bool {
    match existing {
        None => true,
        Some(e) => !(e.depth >= entry.depth && (entry.zobrist == e.zobrist || e.ply >= entry.ply)),
    }
}

/// The number of filled slots among the first `k`.
pub open spec fn filled(s: Seq<Option<TranspositionEntry>>, k: int) -> int
    decreases k,
{
    if k <= 0 {
        0
    } else {
        filled(s, k - 1) + if s[k - 1] is Some {
            1int
        } else {
            0int
        }
    }
}

impl TranspositionTable {
    /// Whether the table has its `2^size` slots.
    pub open spec fn wf(&self) -> bool {
        &&& 1 <= self.size < 32
        &&& self.entries@.len() == (1u64 << (self.size as u64))
    }

    /// An empty table of `2^size` slots.
    pub fn new(size: usize) -> (r: Self)
        requires
            1 <= size < 32,
        ensures
            r.wf(),
            r.size == size,
            forall|i: int| 0 <= i < r.entries@.len() ==> r.entries@[i] is None,
    {
        let n = 1u64 << (size as u64);
        let mut entries: Vec<Option<TranspositionEntry>> = Vec::new();
        let mut i: u64 = 0;
        while i < n
            invariant
                i <= n,
                entries@.len() == i,
                forall|j: int| 0 <= j < i ==> entries@[j] is None,
            decreases n - i,
        {
            entries.push(None);
            i = i + 1;
        }
        TranspositionTable { size, entries }
    }

    /// The slot of a hash.
    fn index(&self, zobrist: u64) -> (r: usize)
        requires
            self.wf(),
        ensures
            r == slot(zobrist, self.size),
            r < self.entries@.len(),
    {
        let s = self.size as u64;
        assert(zobrist & (((1u64 << s) - 1u64) as u64) < (1u64 << s) && (1u64 << s) >= 1 && (1u64 << s) <= 0x8000_0000u64)
            by (bit_vector)
            requires
                s < 32,
        ;
        let mask = (1u64 << s) - 1;
        let v = zobrist & mask;
        assert(v == slot(zobrist, self.size));
        v as usize
    }

    /// Records an entry in its slot, unless the slot keeps what it holds.
    pub fn maybe_insert(&mut self, entry: TranspositionEntry)
        requires
            old(self).wf(),
        ensures
            final(self).wf(),
            final(self).size == old(self).size,
            final(self).entries@ == (if replaces(old(self).entries@[slot(entry.zobrist, old(self).size)], entry) {
                old(self).entries@.update(slot(entry.zobrist, old(self).size), Some(entry))
            } else {
                old(self).entries@
            }),
    {
        let index = self.index(entry.zobrist);
        if let Some(existing) = &self.entries[index] {
            if existing.depth >= entry.depth {
                if entry.zobrist == existing.zobrist {
                    return;
                } else if existing.ply >= entry.ply {
                    return;
                }
            }
        }
        self.entries.set(index, Some(entry));
    }

    /// The entry recorded for a hash, if its slot holds that hash.
    pub fn get(&self, zobrist: u64) -> (r: Option<&TranspositionEntry>)
        requires
            self.wf(),
        ensures
            r == (match self.entries@[slot(zobrist, self.size)] {
                Some(e) => if e.zobrist == zobrist {
                    Some(&e)
                } else {
                    None
                },
                None => None,
            }),
    {
        let index = self.index(zobrist);
        match &self.entries[index] {
            Some(e) => if e.zobrist == zobrist {
                Some(e)
            } else {
                None
            },
            None => None,
        }
    }

    /// Empties every slot.
    pub fn clear(&mut self)
        requires
            old(self).wf(),
        ensures
            final(self).wf(),
            final(self).size == old(self).size,
            forall|i: int| 0 <= i < final(self).entries@.len() ==> final(self).entries@[i] is None,
    {
        let fresh = Self::new(self.size);
        self.entries = fresh.entries;
    }

    /// The number of filled slots.
    pub fn count(&self) -> (r: usize)
        ensures
            r == filled(self.entries@, self.entries@.len() as int),
    {
        let mut n: usize = 0;
        let mut i: usize = 0;
        while i < self.entries.len()
            invariant
                i <= self.entries@.len(),
                n == filled(self.entries@, i as int),
                n <= i,
            decreases self.entries@.len() - i,
        {
            if self.entries[i].is_some() {
                n = n + 1;
            }
            i = i + 1;
        }
        n
    }
}

} // verus!
