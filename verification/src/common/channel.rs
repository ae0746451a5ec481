//! The handshake rules that every AXI channel shares.

use crate::value::{Value, ValueView};
use vstd::prelude::*;
use vstd::string::*;

verus! {

/// What a list of values holds.
pub open spec fn views(values: Seq<Value>) -> Seq<ValueView> {
    values.map_values(|v: Value| v@)
}

/// How a channel broke the stability rule.
#[derive(Clone, Copy, Debug, PartialEq, Eq, Structural)]
pub enum Unstable {
    /// VALID went away before READY came.
    Deasserted,
    /// The payload changed while VALID waited for READY.
    Changed,
}

impl Unstable {
    /// The violation in words.
    pub open spec fn text(self) -> Seq<char> {
        match self {
            Unstable::Deasserted => "VALID deasserted before READY"@,
            Unstable::Changed => "payload changed while VALID was stalled"@,
        }
    }

    /// The violation in words.
    pub fn message(&self) -> (r: &'static str)
        ensures
            r@ == self.text(),
    {
        match self {
            Unstable::Deasserted => "VALID deasserted before READY",
            Unstable::Changed => "payload changed while VALID was stalled",
        }
    }
}

/// What a [`Channel`] remembers.
#[verifier::ext_equal]
pub ghost struct ChannelView {
    /// Whether the last cycle had VALID high and READY low.
    pub stalled: bool,
    /// The payload of the last cycle.
    pub payload: Seq<ValueView>,
    /// The number of stalled cycles in a row, up to the last one.
    pub stall_cycles: u64,
    /// The longest such run so far.
    pub max_stall: u64,
}

impl ChannelView {
    /// The memory of a channel that has seen no cycle.
    pub open spec fn fresh() -> ChannelView {
        ChannelView { stalled: false, payload: seq![], stall_cycles: 0, max_stall: 0 }
    }

    /// The rule that a cycle with this VALID and payload breaks.
    pub open spec fn violation(self, valid: bool, payload: Seq<ValueView>) -> Option<Unstable> {
        if !self.stalled {
            None
        } else if !valid {
            Some(Unstable::Deasserted)
        } else if self.payload != payload {
            Some(Unstable::Changed)
        } else {
            None
        }
    }

    /// The memory after a cycle.
    pub open spec fn after(
        self,
        valid: bool,
        ready: bool,
        payload: Seq<ValueView>,
    ) -> ChannelView {
        let run = if valid && !ready {
            (self.stall_cycles + 1) as u64
        } else {
            0
        };
        ChannelView {
            stalled: valid && !ready,
            payload,
            stall_cycles: run,
            max_stall: if run > self.max_stall {
                run
            } else {
                self.max_stall
            },
        }
    }

    /// Whether the run of stalled cycles can be counted in 64 bits.
    pub open spec fn can_follow(self, valid: bool, ready: bool) -> bool {
        valid && !ready ==> self.stall_cycles < u64::MAX
    }

    /// The memory after a reset: only the longest run stays.
    pub open spec fn cleared(self) -> ChannelView {
        ChannelView { max_stall: self.max_stall, ..ChannelView::fresh() }
    }
}

/// A handshake monitor of one channel. It remembers whether the channel was
/// stalled (VALID high, READY low) in the last cycle and the payload it
/// presented, so that the next cycle can be held to the stability rules. It
/// also counts the stalled cycles in a row.
pub struct Channel {
    stalled: bool,
    payload: Vec<Value>,
    stall_cycles: u64,
    max_stall: u64,
}

impl View for Channel {
    type V = ChannelView;

    closed spec fn view(&self) -> ChannelView {
        ChannelView {
            stalled: self.stalled,
            payload: views(self.payload@),
            stall_cycles: self.stall_cycles,
            max_stall: self.max_stall,
        }
    }
}

/// Whether two lists hold the same values.
fn same_values(a: &Vec<Value>, b: &Vec<Value>) -> (r: bool)
    ensures
        r == (views(a@) == views(b@)),
{
    if a.len() != b.len() {
        assert(views(a@).len() != views(b@).len());
        return false;
    }
    let mut i: usize = 0;
    while i < a.len()
        invariant
            a.len() == b.len(),
            i <= a.len(),
            forall|j: int| 0 <= j < i ==> a[j]@ == b[j]@,
        decreases a.len() - i,
    {
        if !a[i].same(&b[i]) {
            assert(views(a@)[i as int] != views(b@)[i as int]);
            return false;
        }
        i = i + 1;
    }
    assert(views(a@) =~= views(b@));
    true
}

impl Channel {
    /// A monitor that has seen no cycle.
    pub fn new() -> (r: Channel)
        ensures
            r@ == ChannelView::fresh(),
    {
        let r = Channel { stalled: false, payload: Vec::new(), stall_cycles: 0, max_stall: 0 };
        assert(r@ =~= ChannelView::fresh());
        r
    }

    /// Holds a cycle to the rule that VALID stays and the payload does not
    /// change until READY, and remembers the cycle.
    pub fn check(&mut self, valid: bool, ready: bool, payload: Vec<Value>) -> (r: Option<
        Unstable,
    >)
        requires
            old(self)@.can_follow(valid, ready),
        ensures
            r == old(self)@.violation(valid, views(payload@)),
            final(self)@ == old(self)@.after(valid, ready, views(payload@)),
    {
        let violation = if self.stalled {
            if !valid {
                Some(Unstable::Deasserted)
            } else if !same_values(&self.payload, &payload) {
                Some(Unstable::Changed)
            } else {
                None
            }
        } else {
            None
        };
        if valid && !ready {
            self.stall_cycles = self.stall_cycles + 1;
        } else {
            self.stall_cycles = 0;
        }
        if self.stall_cycles > self.max_stall {
            self.max_stall = self.stall_cycles;
        }
        self.stalled = valid && !ready;
        self.payload = payload;
        violation
    }

    /// Whether the run of stalled cycles can be counted in 64 bits.
    pub fn in_range(&self, valid: bool, ready: bool) -> (r: bool)
        ensures
            r == self@.can_follow(valid, ready),
    {
        !valid || ready || self.stall_cycles < u64::MAX
    }

    /// The number of stalled cycles in a row.
    pub fn stall_cycles(&self) -> (r: u64)
        ensures
            r == self@.stall_cycles,
    {
        self.stall_cycles
    }

    /// The longest run of stalled cycles.
    pub fn max_stall(&self) -> (r: u64)
        ensures
            r == self@.max_stall,
    {
        self.max_stall
    }

    /// Forgets the handshake but keeps the longest run.
    pub fn clear(&mut self)
        ensures
            final(self)@ == old(self)@.cleared(),
    {
        self.stalled = false;
        self.payload = Vec::new();
        self.stall_cycles = 0;
        assert(self@ =~= old(self)@.cleared());
    }
}

/// A cycle of a channel.
pub ghost struct Cycle {
    pub valid: bool,
    pub ready: bool,
    pub payload: Seq<ValueView>,
}

/// The memory after a run of cycles.
pub open spec fn after_all(c: ChannelView, cycles: Seq<Cycle>) -> ChannelView
    decreases cycles.len(),
{
    if cycles.len() == 0 {
        c
    } else {
        let last = cycles.last();
        after_all(c, cycles.drop_last()).after(last.valid, last.ready, last.payload)
    }
}

/// The rule in full: a cycle is faulted exactly when the one before it had
/// VALID without READY, and this one withdraws VALID or shows another
/// payload. The first cycle after a reset is never faulted.
pub proof fn lemma_violation_is_instability(c: ChannelView, cycles: Seq<Cycle>, next: Cycle)
    ensures
        after_all(c.cleared(), cycles).violation(next.valid, next.payload) is Some
            <==> cycles.len() > 0 && cycles.last().valid && !cycles.last().ready && (!next.valid
            || next.payload != cycles.last().payload),
{
}

/// The longest run bounds the current one and never shrinks, over any run of
/// cycles short enough not to overflow the count and over resets.
pub proof fn lemma_longest_run_is_kept(c: ChannelView, cycles: Seq<Cycle>)
    requires
        c.stall_cycles <= c.max_stall,
        c.stall_cycles + cycles.len() <= u64::MAX,
    ensures
        after_all(c, cycles).stall_cycles <= after_all(c, cycles).max_stall,
        after_all(c, cycles).max_stall >= c.max_stall,
        after_all(c, cycles).stall_cycles <= c.stall_cycles + cycles.len(),
        after_all(c, cycles).cleared().max_stall == after_all(c, cycles).max_stall,
    decreases cycles.len(),
{
    if cycles.len() > 0 {
        lemma_longest_run_is_kept(c, cycles.drop_last());
    }
}

/// A stall is counted in full: every cycle with VALID and without READY adds
/// one to the run, and any other cycle ends it.
pub proof fn lemma_stalls_are_counted(c: ChannelView, cycles: Seq<Cycle>, next: Cycle)
    requires
        forall|i: int|
            0 <= i < cycles.len() ==> (#[trigger] cycles[i]).valid && !cycles[i].ready,
        c.stall_cycles + cycles.len() <= u64::MAX,
    ensures
        after_all(c, cycles).stall_cycles == c.stall_cycles + cycles.len(),
        !next.valid || next.ready ==> after_all(c, cycles).after(
            next.valid,
            next.ready,
            next.payload,
        ).stall_cycles == 0,
    decreases cycles.len(),
{
    if cycles.len() > 0 {
        let rest = cycles.drop_last();
        assert forall|i: int| 0 <= i < rest.len() implies (#[trigger] rest[i]).valid
            && !rest[i].ready by {
            assert(rest[i] == cycles[i]);
        }
        lemma_stalls_are_counted(c, rest, next);
        assert(cycles[cycles.len() - 1].valid);
    }
}

} // verus!
