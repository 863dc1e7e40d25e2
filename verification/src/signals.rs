//! The coverage map that the example targets mark.

use vstd::prelude::*;
use crate::queue::ExitKind;

verus! {

/// Set coverage point `idx` in the map `signals` to 1, where the map has that
/// point; a point beyond the map is ignored.
pub fn signals_set(signals: &mut Vec<u8>, idx: usize)
    ensures
        final(signals)@ == if idx < old(signals)@.len() {
            old(signals)@.update(idx as int, 1u8)
        } else {
            old(signals)@
        },
{
    if idx < signals.len() {
        signals.set(idx, 1);
    }
}

/// The broker test's target: coverage point 0 on every run, and point 1
/// when the input starts with `a`. Every run ends normally.
pub fn first_byte_harness(buf: &[u8], signals: &mut Vec<u8>) -> (k: ExitKind)
    ensures
        k == ExitKind::Normal,
        final(signals)@.len() == old(signals)@.len(),
        forall|i: int|
            0 <= i < old(signals)@.len() ==> #[trigger] final(signals)@[i] == if i == 0 || (i == 1
                && buf@.len() > 0 && buf@[0] == 97) {
                1u8
            } else {
                old(signals)@[i]
            },
{
    signals_set(signals, 0);
    if buf.len() > 0 && buf[0] == 97 {
        signals_set(signals, 1);
    }
    ExitKind::Normal
}

} // verus!
