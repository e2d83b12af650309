//! Replay protection: no sequence number is accepted twice.

use crate::error::Error;
use vstd::prelude::*;

verus! {

/// How far behind the highest number seen a packet may come.
pub const REPLAY_WINDOW_SIZE: u64 = 128;

/// Remembers the highest sequence number seen and which of those just below it were seen.
#[derive(Debug, Clone)]
pub struct ReplayWindow {
    highest_seen: Option<u64>,
    bitmap: u128,
}

/// What a window remembers: the highest number, and the numbers seen that lie in the window.
#[verifier::ext_equal]
pub struct ReplayView {
    pub highest: Option<u64>,
    pub seen: Set<u64>,
}

/// Bit `i` of the bitmap is set.
spec fn bit_at(bitmap: u128, i: u128) -> bool {
    (bitmap >> i) & 1 == 1
}

impl View for ReplayWindow {
    type V = ReplayView;

    closed spec fn view(&self) -> ReplayView {
        ReplayView {
            highest: self.highest_seen,
            seen: Set::new(
                |seq: u64|
                    match self.highest_seen {
                        None => false,
                        Some(highest) => in_window(highest, seq) && bit_at(
                            self.bitmap,
                            (highest - seq) as u128,
                        ),
                    },
            ),
        }
    }
}

/// `seq` is at most `highest` and not too far behind it.
pub open spec fn in_window(highest: u64, seq: u64) -> bool {
    0 <= highest - seq < REPLAY_WINDOW_SIZE
}

impl ReplayView {
    /// Nothing was seen.
    pub open spec fn fresh() -> ReplayView {
        ReplayView { highest: None, seen: Set::empty() }
    }

    /// Everything remembered lies in the window, and the highest number is remembered.
    pub open spec fn consistent(self) -> bool {
        match self.highest {
            None => self.seen == Set::<u64>::empty(),
            Some(highest) => self.seen.contains(highest) && forall|seq: u64| #[trigger]
                self.seen.contains(seq) ==> in_window(highest, seq),
        }
    }

    /// What is said to a packet numbered `seq`.
    pub open spec fn verdict(self, seq: u64) -> Result<(), Error> {
        match self.highest {
            None => Ok(()),
            Some(highest) => if seq > highest {
                Ok(())
            } else if !in_window(highest, seq) {
                Err(Error::OutOfWindow { seq, highest })
            } else if self.seen.contains(seq) {
                Err(Error::DuplicateSequence { seq })
            } else {
                Ok(())
            },
        }
    }

    /// The highest number once `seq` was accepted.
    pub open spec fn highest_with(self, seq: u64) -> u64 {
        match self.highest {
            None => seq,
            Some(highest) => if seq > highest {
                seq
            } else {
                highest
            },
        }
    }

    /// What is remembered after a packet numbered `seq`: a refused packet changes nothing,
    /// an accepted one is added, and what falls out of the window is forgotten.
    pub open spec fn after(self, seq: u64) -> ReplayView {
        if self.verdict(seq) is Ok {
            ReplayView {
                highest: Some(self.highest_with(seq)),
                seen: Set::new(
                    |s: u64|
                        (s == seq || self.seen.contains(s)) && in_window(self.highest_with(seq), s),
                ),
            }
        } else {
            self
        }
    }
}

proof fn lemma_first_bit(i: u128)
    by (bit_vector)
    requires
        i < 128,
    ensures
        ((1u128 >> i) & 1 == 1) == (i == 0),
{
}

proof fn lemma_shifted_bit(bitmap: u128, delta: u128, i: u128)
    by (bit_vector)
    requires
        0 < delta < 128,
        i < 128,
    ensures
        ((((bitmap << delta) | 1) >> i) & 1 == 1) == (i == 0 || (i >= delta && (bitmap >> (
        i - delta) as u128) & 1 == 1)),
{
}

proof fn lemma_set_bit(bitmap: u128, behind: u128, i: u128)
    by (bit_vector)
    requires
        behind < 128,
        i < 128,
    ensures
        (((bitmap | (1u128 << behind)) >> i) & 1 == 1) == (i == behind || (bitmap >> i) & 1 == 1),
{
}

proof fn lemma_test_bit(bitmap: u128, behind: u128)
    by (bit_vector)
    requires
        behind < 128,
    ensures
        (bitmap & (1u128 << behind) != 0) == ((bitmap >> behind) & 1 == 1),
{
}

impl Default for ReplayWindow {
    fn default() -> (window: Self)
        ensures
            window@ == ReplayView::fresh(),
    {
        let window = ReplayWindow { highest_seen: None, bitmap: 0 };
        assert(window@ =~= ReplayView::fresh());
        window
    }
}

impl ReplayWindow {
    /// Accepts and records `seq` unless it was seen before or lies behind the window.
    pub fn check_and_record(&mut self, seq: u64) -> (r: Result<(), Error>)
        ensures
            r == old(self)@.verdict(seq),
            final(self)@ == old(self)@.after(seq),
    {
        let ghost before = *self;
        match self.highest_seen {
            None => {
                self.highest_seen = Some(seq);
                self.bitmap = 1;
                proof {
                    assert forall|s: u64| self@.seen.contains(s) == before@.after(
                        seq,
                    ).seen.contains(s) by {
                        if in_window(seq, s) {
                            lemma_first_bit((seq - s) as u128);
                        }
                    }
                    assert(self@ =~= before@.after(seq));
                }
                Ok(())
            },
            Some(highest) => {
                if seq > highest {
                    let delta: u64 = seq - highest;
                    if delta >= REPLAY_WINDOW_SIZE {
                        self.bitmap = 1;
                    } else {
                        self.bitmap = (self.bitmap << delta as u128) | 1;
                    }
                    self.highest_seen = Some(seq);
                    proof {
                        assert forall|s: u64| self@.seen.contains(s) == before@.after(
                            seq,
                        ).seen.contains(s) by {
                            if in_window(seq, s) {
                                if delta >= REPLAY_WINDOW_SIZE {
                                    lemma_first_bit((seq - s) as u128);
                                } else {
                                    lemma_shifted_bit(
                                        before.bitmap,
                                        delta as u128,
                                        (seq - s) as u128,
                                    );
                                }
                            }
                        }
                        assert(self@ =~= before@.after(seq));
                    }
                    return Ok(());
                }
                let behind: u64 = highest - seq;
                if behind >= REPLAY_WINDOW_SIZE {
                    return Err(Error::OutOfWindow { seq, highest });
                }
                let mask: u128 = 1u128 << behind as u128;
                proof {
                    lemma_test_bit(self.bitmap, behind as u128);
                }
                if self.bitmap & mask != 0 {
                    return Err(Error::DuplicateSequence { seq });
                }
                self.bitmap = self.bitmap | mask;
                proof {
                    assert forall|s: u64| self@.seen.contains(s) == before@.after(
                        seq,
                    ).seen.contains(s) by {
                        if in_window(highest, s) {
                            lemma_set_bit(before.bitmap, behind as u128, (highest - s) as u128);
                        }
                    }
                    assert(self@ =~= before@.after(seq));
                }
                Ok(())
            },
        }
    }
}

/// What a window remembers after all of `seqs`, in order.
pub open spec fn after_all(window: ReplayView, seqs: Seq<u64>) -> ReplayView
    decreases seqs.len(),
{
    if seqs.len() == 0 {
        window
    } else {
        after_all(window, seqs.drop_last()).after(seqs.last())
    }
}

/// What a window remembers stays consistent, whatever comes.
pub proof fn law_window_stays_consistent(window: ReplayView, seq: u64)
    requires
        window.consistent(),
    ensures
        window.after(seq).consistent(),
        ReplayView::fresh().consistent(),
{
}

/// A number that was accepted is refused from then on, however many other packets come in
/// between: nothing is accepted twice.
pub proof fn law_no_sequence_accepted_twice(window: ReplayView, seq: u64, between: Seq<u64>)
    requires
        window.verdict(seq) is Ok,
    ensures
        after_all(window.after(seq), between).verdict(seq) is Err,
    decreases between.len(),
{
    if between.len() > 0 {
        law_no_sequence_accepted_twice(window, seq, between.drop_last());
    }
}

/// A number that lies in the window and was not seen, or lies above it, is accepted.
pub proof fn law_fresh_sequence_accepted(window: ReplayView, seq: u64)
    requires
        window.consistent(),
        !window.seen.contains(seq),
        window.highest matches Some(highest) ==> seq > highest || in_window(highest, seq),
    ensures
        window.verdict(seq) is Ok,
        window.after(seq).seen.contains(seq),
{
}

/// `highest` is the highest of some numbers.
pub open spec fn is_highest(highest: u64, seqs: Seq<u64>) -> bool {
    seqs.contains(highest) && forall|i: int| 0 <= i < seqs.len() ==> #[trigger] seqs[i] <= highest
}

/// What a new window remembers after some numbers: the highest of them, and of the 128 numbers up
/// to it those that came.
proof fn lemma_remembers(seqs: Seq<u64>, seq: u64)
    ensures
        ({
            let window = after_all(ReplayView::fresh(), seqs);
            &&& window.highest is None <==> seqs.len() == 0
            &&& window.highest matches Some(highest) ==> {
                &&& is_highest(highest, seqs)
                &&& window.seen.contains(seq) <==> seqs.contains(seq) && highest - seq < 128
            }
            &&& window.highest is None ==> !window.seen.contains(seq)
        }),
    decreases seqs.len(),
{
    if seqs.len() > 0 {
        let rest = seqs.drop_last();
        let last = seqs.last();
        lemma_remembers(rest, seq);
        lemma_remembers(rest, last);
        assert(forall|i: int| 0 <= i < rest.len() ==> rest[i] == seqs[i]);
        assert(seqs[seqs.len() - 1] == last);
        assert forall|s: u64| seqs.contains(s) <==> (s == last || rest.contains(s)) by {
            if rest.contains(s) {
                let i = choose|i: int| 0 <= i < rest.len() && rest[i] == s;
                assert(seqs[i] == s);
            }
            if seqs.contains(s) && s != last {
                let i = choose|i: int| 0 <= i < seqs.len() && seqs[i] == s;
                assert(rest[i] == s);
            }
        }
    }
}

/// What is said to a packet depends on nothing but the numbers that came before it, in whatever
/// order: it is refused as too old where a number came that is 128 or more above its own, else it
/// is refused as repeated where its number came, and else it is accepted.
pub proof fn law_window_is_exact(seqs: Seq<u64>, seq: u64)
    ensures
        ({
            let verdict = after_all(ReplayView::fresh(), seqs).verdict(seq);
            let too_old = exists|i: int| 0 <= i < seqs.len() && #[trigger] seqs[i] - seq >= 128;
            &&& too_old ==> exists|highest: u64| #[trigger]
                is_highest(highest, seqs) && verdict == Err::<(), Error>(
                    Error::OutOfWindow { seq, highest },
                )
            &&& !too_old && seqs.contains(seq) ==> verdict == Err::<(), Error>(
                Error::DuplicateSequence { seq },
            )
            &&& !too_old && !seqs.contains(seq) ==> verdict == Ok::<(), Error>(())
        }),
{
    lemma_remembers(seqs, seq);
    let window = after_all(ReplayView::fresh(), seqs);
    if let Some(highest) = window.highest {
        if seqs.contains(seq) {
            let i = choose|i: int| 0 <= i < seqs.len() && seqs[i] == seq;
            assert(seqs[i] <= highest);
        }
        let w = choose|w: int| 0 <= w < seqs.len() && seqs[w] == highest;
        assert(seqs[w] == highest);
    }
}

} // verus!
