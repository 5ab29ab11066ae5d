//! The bounded memory of each firm.
//!
//! A language model keeps nothing from one round to the next, so each firm's
//! recent rounds are handed back to it in every prompt.  After each round
//! the round's record is appended to the firm's memory, which is then cut
//! back to the most recent `window` records.

use vstd::prelude::*;

verus! {

/// The most recent `window` records of `s` (all of them when `window` is 0
/// or `s` is not longer than `window`).
pub open spec fn recent<T>(s: Seq<T>, window: nat) -> Seq<T> {
    if window > 0 && s.len() > window {
        s.skip(s.len() - window)
    } else {
        s
    }
}

/// The memory after recording each record of `history` in turn, starting
/// from an empty memory.
pub open spec fn replay<T>(history: Seq<T>, window: nat) -> Seq<T>
    decreases history.len(),
{
    if history.len() == 0 {
        Seq::empty()
    } else {
        recent(replay(history.drop_last(), window).push(history.last()), window)
    }
}

/// Appends each round's record to the firm's memory and keeps the most
/// recent `window` records (`window` 0 keeps them all).
pub struct MemoryUpdate {
    /// How many recent rounds the memory holds.
    pub window: usize,
}

impl MemoryUpdate {
    /// Records `rec` as the newest entry of `mem`, dropping the oldest
    /// entries beyond the window.
    pub fn remember<T>(&self, mem: &mut Vec<T>, rec: T)
        ensures
            final(mem)@ == recent(old(mem)@.push(rec), self.window as nat),
    {
        mem.push(rec);
        let ghost full = mem@;
        if self.window > 0 && mem.len() > self.window {
            let excess = mem.len() - self.window;
            let mut k: usize = 0;
            assert(full.skip(0) =~= full);
            while k < excess
                invariant
                    0 <= k <= excess,
                    excess == full.len() - self.window,
                    mem@ == full.skip(k as int),
                decreases excess - k,
            {
                mem.remove(0);
                assert(full.skip(k as int).remove(0) =~= full.skip(k + 1));
                k += 1;
            }
        }
    }
}

/// After a record is remembered, the memory holds at most `window` records
/// (when `window` is positive), and the newest record is the last one.
pub proof fn lemma_memory_stays_bounded<T>(mem: Seq<T>, rec: T, window: nat)
    ensures
        window > 0 ==> recent(mem.push(rec), window).len() <= window,
        recent(mem.push(rec), window).len() > 0,
        recent(mem.push(rec), window).last() == rec,
        recent(mem.push(rec), window).len() <= mem.len() + 1,
{
}

/// The memory keeps the newest records, in order: it is the end of the
/// record list, as long as the window when the list is longer (and the
/// window positive), the whole list otherwise.
pub proof fn lemma_recent_is_newest<T>(s: Seq<T>, window: nat)
    ensures
        recent(s, window).len() == if window > 0 && s.len() > window {
            window
        } else {
            s.len()
        },
        forall|k: int|
            0 <= k < recent(s, window).len() ==> #[trigger] recent(s, window)[k] == s[s.len()
                - recent(s, window).len() + k],
{
}

/// Cutting back before appending changes nothing: the recent window of the
/// recent window, extended by one record, is the recent window of the
/// whole history extended by that record.
proof fn lemma_recent_push<T>(s: Seq<T>, x: T, window: nat)
    ensures
        recent(recent(s, window).push(x), window) == recent(s.push(x), window),
{
    let r = recent(s, window);
    if window > 0 && s.len() > window {
        assert(recent(r.push(x), window) =~= recent(s.push(x), window));
    } else {
        assert(r == s);
    }
}

/// From an empty memory, after any sequence of rounds the memory holds
/// exactly the records of the most recent `window` rounds, oldest first.
pub proof fn lemma_memory_is_recent_history<T>(history: Seq<T>, window: nat)
    ensures
        replay(history, window) == recent(history, window),
    decreases history.len(),
{
    if history.len() > 0 {
        let before = history.drop_last();
        lemma_memory_is_recent_history(before, window);
        lemma_recent_push(before, history.last(), window);
        assert(before.push(history.last()) =~= history);
    } else {
        assert(recent(history, window) =~= Seq::<T>::empty());
    }
}

} // verus!
