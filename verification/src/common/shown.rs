//! What components drive, as a monitor sees it.

use crate::common::channel::ChannelView;
use crate::common::monitor::LaneView;
use crate::common::words::zeros;
use crate::value::ValueView;
use vstd::prelude::*;

verus! {

/// A word vector on a port of some width.
pub open spec fn shown(words: Seq<u64>, width: u32) -> ValueView {
    ValueView::Bits { words, mask_xz: zeros(words.len()), width }
}

/// Whether a channel shows this VALID, READY and payload.
pub open spec fn shows(l: LaneView, valid: bool, ready: bool, payload: Seq<ValueView>) -> bool {
    &&& l.valid == shown(seq![bit_of(valid)], 1)
    &&& l.ready == shown(seq![bit_of(ready)], 1)
    &&& l.payload == payload
}

/// A line as a number.
pub open spec fn bit_of(b: bool) -> u64 {
    if b {
        1
    } else {
        0
    }
}

/// Whether a channel that was stalled goes on with the same payload.
pub open spec fn goes_on(c: ChannelView, valid: bool, payload: Seq<ValueView>) -> bool {
    c.stalled ==> valid && c.payload == payload
}

/// A driven line reads as what it is driven to.
pub proof fn lemma_shown_line(b: bool)
    ensures
        shown(seq![bit_of(b)], 1).high() == b,
        !shown(seq![bit_of(b)], 1).unknown(),
{
    let v = seq![bit_of(b)];
    assert(v[0] == bit_of(b));
}

/// A driven channel reads as what it is driven to.
pub proof fn lemma_shown_channel(l: LaneView, valid: bool, ready: bool, payload: Seq<ValueView>)
    requires
        shows(l, valid, ready, payload),
        forall|i: int| 0 <= i < payload.len() ==> !(#[trigger] payload[i]).unknown(),
    ensures
        l.valid.high() == valid,
        l.ready.high() == ready,
        !l.valid.unknown(),
        !l.ready.unknown(),
        l.fires() == (valid && ready),
        !l.unknown_payload(),
{
    lemma_shown_line(valid);
    lemma_shown_line(ready);
}

} // verus!
