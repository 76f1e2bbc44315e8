//! Tokens in transit between two cells while the board resettles.

use vstd::prelude::*;
use crate::hex::{Axial, HexCoordinate};

verus! {

/// Progress value of a transit that has arrived, in thousandths.
pub const PROGRESS_FULL: u32 = 1000;

/// The mathematical value of a [`SettlingEntry`].
pub struct Transit {
    pub from: Axial,
    pub to: Axial,
    pub progress: int,
}

/// A token on its way from the cell it left to the cell it falls into, with
/// the covered fraction of the way in thousandths. It lives only until the
/// way is covered.
#[derive(Clone, Copy, Debug, PartialEq, Eq, Structural)]
pub struct SettlingEntry {
    pub from: HexCoordinate,
    pub to: HexCoordinate,
    pub progress: u32,
}

impl View for SettlingEntry {
    type V = Transit;

    open spec fn view(&self) -> Transit {
        Transit { from: self.from@, to: self.to@, progress: self.progress as int }
    }
}

/// Progress after `amount` more thousandths, capped at the full way.
pub open spec fn progress_after(progress: int, amount: int) -> int {
    if progress + amount >= PROGRESS_FULL {
        PROGRESS_FULL as int
    } else {
        progress + amount
    }
}

/// The entries of `s` advanced by `amount`, without those that have arrived.
pub open spec fn still_moving(s: Seq<Transit>, amount: int) -> Seq<Transit>
    decreases s.len(),
{
    if s.len() == 0 {
        Seq::<Transit>::empty()
    } else {
        let rest = still_moving(s.drop_last(), amount);
        let e = s.last();
        if progress_after(e.progress, amount) >= PROGRESS_FULL {
            rest
        } else {
            rest.push(Transit { from: e.from, to: e.to, progress: progress_after(e.progress, amount) })
        }
    }
}

/// The values of a list of entries.
pub open spec fn transits(v: Seq<SettlingEntry>) -> Seq<Transit> {
    v.map_values(|e: SettlingEntry| e@)
}

impl SettlingEntry {
    /// A transit that has just started.
    pub fn new(from: HexCoordinate, to: HexCoordinate) -> (e: SettlingEntry)
        ensures
            e@ == (Transit { from: from@, to: to@, progress: 0 }),
    {
        SettlingEntry { from, to, progress: 0 }
    }

    /// Whether the token has arrived.
    pub fn is_complete(&self) -> (b: bool)
        ensures
            b == (self@.progress >= PROGRESS_FULL),
    {
        self.progress >= PROGRESS_FULL
    }

    /// Moves the token `amount` thousandths further, at most to its target.
    pub fn advance(&mut self, amount: u32)
        ensures
            final(self)@ == (Transit {
                from: old(self)@.from,
                to: old(self)@.to,
                progress: progress_after(old(self)@.progress, amount as int),
            }),
    {
        if self.progress >= PROGRESS_FULL || amount >= PROGRESS_FULL - self.progress {
            self.progress = PROGRESS_FULL;
        } else {
            self.progress = self.progress + amount;
        }
    }
}

/// Advances every entry by `amount` and discards those that have arrived,
/// keeping the others in their order.
pub fn advance_entries(entries: &Vec<SettlingEntry>, amount: u32) -> (kept: Vec<SettlingEntry>)
    ensures
        transits(kept@) == still_moving(transits(entries@), amount as int),
{
    let mut kept: Vec<SettlingEntry> = Vec::new();
    let mut i: usize = 0;
    assert(transits(entries@).take(0) =~= Seq::<Transit>::empty());
    assert(transits(kept@) =~= Seq::<Transit>::empty());
    while i < entries.len()
        invariant
            i <= entries.len(),
            transits(kept@) == still_moving(transits(entries@).take(i as int), amount as int),
        decreases entries.len() - i,
    {
        let mut e: SettlingEntry = entries[i];
        e.advance(amount);
        proof {
            let all = transits(entries@);
            assert(all.take(i + 1).drop_last() =~= all.take(i as int));
            assert(all.take(i + 1).last() == entries@[i as int]@);
        }
        if !e.is_complete() {
            let ghost before = transits(kept@);
            kept.push(e);
            assert(transits(kept@) =~= before.push(e@));
        }
        i = i + 1;
    }
    assert(transits(entries@).take(i as int) =~= transits(entries@));
    kept
}

} // verus!
