//! What to do as frames come and go.

use vstd::prelude::*;

verus! {

/// How many captures may fail in a row before streaming gives up.
pub const PATIENCE: u32 = 50;

/// One second, in nanoseconds.
pub const WINDOW: u128 = 1_000_000_000;

/// What is remembered while streaming.
#[derive(Debug, Clone, Copy)]
pub struct Stream {
    failures: u32,
    frames: u64,
    processing: u128,
    status_drawn: bool,
    interactive: bool,
}

/// What to do after a failed capture.
#[derive(Debug, Clone, Copy, PartialEq, Eq, Structural)]
pub enum Recovery {
    /// It failed too often in a row.
    GiveUp,
    /// Wait, forget the scene, try again. The number counts the failures.
    Retry { failures: u32 },
}

/// The throughput over a window: how many frames were delivered, and for how
/// many nanoseconds they were processed.
#[derive(Debug, Clone, Copy, PartialEq, Eq, Structural)]
pub struct Throughput {
    pub frames: u64,
    pub processing: u128,
}

impl Stream {
    /// How many captures have failed since the last one that did not.
    pub closed spec fn failed(&self) -> nat {
        self.failures as nat
    }

    /// What the current window has seen.
    pub closed spec fn counted(&self) -> (nat, nat) {
        (self.frames as nat, self.processing as nat)
    }

    /// Whether a status line stands open.
    pub closed spec fn is_drawn(&self) -> bool {
        self.status_drawn
    }

    pub closed spec fn is_interactive(&self) -> bool {
        self.interactive
    }

    pub open spec fn well_formed(&self) -> bool {
        &&& self.failed() <= PATIENCE
        &&& self.is_drawn() ==> self.is_interactive()
    }

    pub fn new(interactive: bool) -> (stream: Stream)
        ensures
            stream.well_formed(),
            stream.failed() == 0,
            stream.counted() == (0nat, 0nat),
            !stream.is_drawn(),
            stream.is_interactive() == interactive,
    {
        Stream { failures: 0, frames: 0, processing: 0, status_drawn: false, interactive }
    }

    /// A frame was captured.
    pub fn captured(&mut self)
        requires
            old(self).well_formed(),
        ensures
            final(self).well_formed(),
            final(self).failed() == count_after(old(self).failed(), true),
            final(self).failed() == 0,
            final(self).counted() == old(self).counted(),
            final(self).is_drawn() == old(self).is_drawn(),
            final(self).is_interactive() == old(self).is_interactive(),
    {
        self.failures = 0;
    }

    /// A capture failed. The status line is to be closed first, where one
    /// stands open.
    pub fn capture_failed(&mut self) -> (answer: (bool, Recovery))
        requires
            old(self).well_formed(),
        ensures
            answer.0 == old(self).is_drawn(),
            !final(self).is_drawn(),
            final(self).counted() == old(self).counted(),
            final(self).is_interactive() == old(self).is_interactive(),
            final(self).failed() == count_after(old(self).failed(), false),
            final(self).failed() == old(self).failed() + 1,
            answer.1 is GiveUp <==> old(self).failed() >= 50,
            answer.1 matches Recovery::Retry { failures } ==> failures == old(self).failed() + 1,
            answer.1 == if final(self).failed() > PATIENCE {
                Recovery::GiveUp
            } else {
                Recovery::Retry { failures: final(self).failed() as u32 }
            },
            answer.1 is Retry ==> final(self).well_formed(),
    {
        let close = self.status_drawn;
        self.status_drawn = false;
        self.failures = self.failures + 1;
        if self.failures > PATIENCE {
            (close, Recovery::GiveUp)
        } else {
            (close, Recovery::Retry { failures: self.failures })
        }
    }

    /// Whether the counts of the window can take one more frame.
    pub fn can_count(&self, processing: u128) -> (yes: bool)
        ensures
            yes == (self.counted().0 < u64::MAX && self.counted().1 + processing <= u128::MAX),
    {
        self.frames < u64::MAX && processing <= u128::MAX - self.processing
    }

    /// A frame was delivered, after so many nanoseconds of processing, and so
    /// many nanoseconds into the window. Once the window is over, its
    /// throughput is to be reported, and a new one begins.
    pub fn delivered(&mut self, processing: u128, elapsed: u128) -> (report: Option<Throughput>)
        requires
            old(self).well_formed(),
            old(self).counted().0 < u64::MAX,
            old(self).counted().1 + processing <= u128::MAX,
        ensures
            final(self).well_formed(),
            final(self).failed() == old(self).failed(),
            final(self).is_interactive() == old(self).is_interactive(),
            ({
                let frames = old(self).counted().0 + 1;
                let total = old(self).counted().1 + processing;
                if elapsed >= WINDOW {
                    &&& report == Some(
                        Throughput { frames: frames as u64, processing: total as u128 },
                    )
                    &&& final(self).counted() == (0nat, 0nat)
                    &&& final(self).is_drawn() == (old(self).is_drawn()
                        || old(self).is_interactive())
                } else {
                    &&& report is None
                    &&& final(self).counted() == (frames as nat, total as nat)
                    &&& final(self).is_drawn() == old(self).is_drawn()
                }
            }),
            report is Some <==> elapsed >= 1_000_000_000,
            report matches Some(t) ==> t.frames == old(self).counted().0 + 1 && t.processing
                == old(self).counted().1 + processing,
            final(self).counted() == if report is Some {
                (0nat, 0nat)
            } else {
                (old(self).counted().0 + 1, old(self).counted().1 + processing as nat)
            },
    {
        self.frames = self.frames + 1;
        self.processing = self.processing + processing;
        if elapsed >= WINDOW {
            let report = Throughput { frames: self.frames, processing: self.processing };
            self.frames = 0;
            self.processing = 0;
            if self.interactive {
                self.status_drawn = true;
            }
            Some(report)
        } else {
            None
        }
    }

    /// Whether the status line is to be closed before anything else is printed.
    pub fn stands_open(&self) -> (yes: bool)
        ensures
            yes == self.is_drawn(),
    {
        self.status_drawn
    }

    /// What to print for a status line: redrawn in place on a terminal, a plain
    /// line where output is redirected, so that logs stay readable.
    pub fn status(&self, line: &str) -> (text: String)
        ensures
            text@ == if self.is_interactive() {
                "\r"@ + line@ + "\x1b[K"@
            } else {
                line@ + "\n"@
            },
    {
        if self.interactive {
            // The escape sequence clears any leftover from a longer line.
            "\r".to_owned().concat(line).concat("\x1b[K")
        } else {
            line.to_owned().concat("\n")
        }
    }
}

/// How many captures in a row have failed at the end of some, in which `true`
/// stands for one that went well.
pub open spec fn streak(captures: Seq<bool>) -> nat
    decreases captures.len(),
{
    if captures.len() == 0 || captures.last() {
        0
    } else {
        streak(captures.drop_last()) + 1
    }
}

/// What a capture does to the count of failures.
pub open spec fn count_after(failed: nat, went_well: bool) -> nat {
    if went_well {
        0
    } else {
        failed + 1
    }
}

pub open spec fn count_of(captures: Seq<bool>) -> nat
    decreases captures.len(),
{
    if captures.len() == 0 {
        0
    } else {
        count_after(count_of(captures.drop_last()), captures.last())
    }
}

/// Streaming gives up exactly when the last 51 captures all failed.
pub proof fn law_gives_up_after_a_streak(captures: Seq<bool>)
    ensures
        count_of(captures) == streak(captures),
        count_of(captures) > PATIENCE <==> captures.len() >= 51 && forall|i: int|
            captures.len() - 51 <= i < captures.len() ==> !(#[trigger] captures[i]),
{
    lemma_count_is_streak(captures);
    lemma_streak(captures, (PATIENCE + 1) as nat);
}

proof fn lemma_count_is_streak(captures: Seq<bool>)
    ensures
        count_of(captures) == streak(captures),
    decreases captures.len(),
{
    if captures.len() > 0 {
        lemma_count_is_streak(captures.drop_last());
    }
}

proof fn lemma_streak(captures: Seq<bool>, n: nat)
    ensures
        streak(captures) >= n <==> captures.len() >= n && forall|i: int|
            captures.len() - n <= i < captures.len() ==> !(#[trigger] captures[i]),
    decreases captures.len(),
{
    if n > 0 && captures.len() > 0 {
        let before = captures.drop_last();
        let m = (n - 1) as nat;
        lemma_streak(before, m);
        if !captures.last() {
            if captures.len() >= n && streak(captures) >= n {
                assert forall|i: int|
                    captures.len() - n <= i < captures.len() implies !(
                #[trigger] captures[i]) by {
                    if i < before.len() {
                        assert(!before[i]);
                    }
                }
            }
            if captures.len() >= n && (forall|i: int|
                captures.len() - n <= i < captures.len() ==> !(#[trigger] captures[i])) {
                assert forall|i: int|
                    before.len() - m <= i < before.len() implies !(#[trigger] before[i]) by {
                    assert(!captures[i]);
                }
            }
        } else {
            assert(captures[captures.len() - 1]);
        }
    }
}

} // verus!
