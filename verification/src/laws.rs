//! What holds of the filter on every stream: which bytes pass unchanged,
//! what a complete sequence turns into, and what stays true of the filter's
//! own state.

use vstd::prelude::*;
use crate::filter::{FilterView, SgrState, SGR_MAX_LEN};
use crate::params::{CSI_OPEN, ESC, SGR_FINAL, all_param_bytes, is_param_byte};
use crate::sgr::{rewritten, rewritten_attrs};

verus! {

/// Filtering a single byte is one step of the filter.
pub proof fn lemma_run_one(v: FilterView, b: u8)
    ensures
        v.run(seq![b]) == v.step(b),
{
    let data = seq![b];
    assert(data.drop_last() =~= Seq::<u8>::empty());
    assert(data.last() == b);
    assert(v.run(data.drop_last()) == (v, Seq::<u8>::empty()));
    assert(Seq::<u8>::empty() + v.step(b).1 =~= v.step(b).1);
}

/// Where a stream is cut into chunks makes no difference: filtering `a` and
/// then `b` leaves the filter, and sends on the bytes, that filtering the
/// two as one stream does.
pub proof fn lemma_run_concat(v: FilterView, a: Seq<u8>, b: Seq<u8>)
    ensures
        v.run(a + b).0 == v.run(a).0.run(b).0,
        v.run(a + b).1 == v.run(a).1 + v.run(a).0.run(b).1,
    decreases b.len(),
{
    if b.len() == 0 {
        assert(a + b =~= a);
        assert(v.run(a).1 + Seq::<u8>::empty() =~= v.run(a).1);
    } else {
        let all = a + b;
        assert(all.drop_last() =~= a + b.drop_last());
        assert(all.last() == b.last());
        lemma_run_concat(v, a, b.drop_last());
        let mid = v.run(a).0;
        let (before, sent) = mid.run(b.drop_last());
        let more = before.step(b.last()).1;
        assert(v.run(a).1 + (sent + more) =~= (v.run(a).1 + sent) + more);
    }
}

/// No byte is dropped. Unless it ends an SGR sequence, a byte is either
/// held back or sent on, together with all that was held back before it:
/// what is sent on for the byte, followed by what is pending after it, is
/// what was pending before it, followed by the byte.
pub proof fn lemma_step_keeps_bytes(v: FilterView, b: u8)
    requires
        !(v.state == SgrState::AfterCsi && b == SGR_FINAL),
    ensures
        v.step(b).1 + v.step(b).0.pending() == v.pending() + seq![b],
{
    let (after, sent) = v.step(b);
    assert(sent + after.pending() =~= v.pending() + seq![b]);
}

/// No byte is dropped from a stream in which no SGR sequence ends: what is
/// sent on for the stream, followed by what is pending after it, is what
/// was pending before it, followed by the stream.
pub proof fn lemma_run_keeps_bytes(v: FilterView, data: Seq<u8>)
    requires
        forall|i: int| 0 <= i < data.len() ==> data[i] != SGR_FINAL,
    ensures
        v.run(data).1 + v.run(data).0.pending() == v.pending() + data,
    decreases data.len(),
{
    if data.len() == 0 {
        assert(Seq::<u8>::empty() + v.pending() =~= v.pending() + data);
    } else {
        let (before, sent) = v.run(data.drop_last());
        let (after, more) = before.step(data.last());
        lemma_run_keeps_bytes(v, data.drop_last());
        lemma_step_keeps_bytes(before, data.last());
        assert((sent + more) + after.pending() =~= sent + (more + after.pending()));
        assert(sent + (before.pending() + seq![data.last()]) =~= (sent + before.pending())
            + seq![data.last()]);
        assert((v.pending() + data.drop_last()) + seq![data.last()] =~= v.pending() + data);
    }
}

/// A stream without an escape byte passes a filter that is outside any
/// sequence unchanged, and leaves the filter as it was. (A filter that is
/// inside a sequence takes the first bytes of any stream for the rest of
/// that sequence.)
pub proof fn lemma_plain_bytes_unchanged(v: FilterView, data: Seq<u8>)
    requires
        data.len() > 0 ==> v.state == SgrState::Init,
        forall|i: int| 0 <= i < data.len() ==> data[i] != ESC,
    ensures
        v.run(data) == (v, data),
    decreases data.len(),
{
    if data.len() == 0 {
        assert(data =~= Seq::<u8>::empty());
    } else {
        lemma_plain_bytes_unchanged(v, data.drop_last());
        assert(v.step(data.last()) == (v, seq![data.last()]));
        assert(data.drop_last() + seq![data.last()] =~= data);
    }
}

/// Inside a control sequence, parameter bytes are held back for as long as
/// the buffer has room: nothing is sent on, and the buffer grows by them.
pub proof fn lemma_params_held_back(v: FilterView, params: Seq<u8>)
    requires
        v.state == SgrState::AfterCsi,
        all_param_bytes(params),
        v.buffer.len() + params.len() <= SGR_MAX_LEN,
    ensures
        v.run(params) == (FilterView { buffer: v.buffer + params, ..v }, Seq::<u8>::empty()),
    decreases params.len(),
{
    if params.len() == 0 {
        assert(v.buffer + params =~= v.buffer);
    } else {
        let shorter = params.drop_last();
        lemma_params_held_back(v, shorter);
        let before = FilterView { buffer: v.buffer + shorter, ..v };
        assert(is_param_byte(params.last()));
        assert(before.holds_back(params.last()));
        assert((v.buffer + shorter).push(params.last()) =~= v.buffer + params);
        assert(Seq::<u8>::empty() + Seq::<u8>::empty() =~= Seq::<u8>::empty());
    }
}

/// From outside any sequence, `ESC [` and parameter bytes that fit the
/// buffer are all held back: the filter stands inside a control sequence
/// with exactly these parameters buffered.
pub proof fn lemma_sequence_opened(v: FilterView, params: Seq<u8>)
    requires
        v.state == SgrState::Init,
        all_param_bytes(params),
        params.len() <= SGR_MAX_LEN,
    ensures
        v.run(seq![ESC, CSI_OPEN] + params) == (
            FilterView { state: SgrState::AfterCsi, buffer: params, ..v },
            Seq::<u8>::empty(),
        ),
{
    let escaped = FilterView { state: SgrState::AfterEsc, ..v };
    let opened = FilterView { state: SgrState::AfterCsi, buffer: Seq::empty(), ..v };
    lemma_run_one(v, ESC);
    lemma_run_one(escaped, CSI_OPEN);
    lemma_run_concat(v, seq![ESC], seq![CSI_OPEN]);
    assert(seq![ESC] + seq![CSI_OPEN] =~= seq![ESC, CSI_OPEN]);
    lemma_params_held_back(opened, params);
    lemma_run_concat(v, seq![ESC, CSI_OPEN], params);
    assert(Seq::<u8>::empty() + params =~= params);
    assert(Seq::<u8>::empty() + Seq::<u8>::empty() =~= Seq::<u8>::empty());
}

/// A control sequence whose parameters fit the buffer and which ends in a
/// byte that is neither `m` nor held back is sent on byte for byte. The
/// attributes do not change, and the filter is outside any sequence again.
pub proof fn lemma_sequence_forwarded(v: FilterView, params: Seq<u8>, last: u8)
    requires
        v.state == SgrState::Init,
        all_param_bytes(params),
        params.len() <= SGR_MAX_LEN,
        last != SGR_FINAL,
        !(is_param_byte(last) && params.len() < SGR_MAX_LEN),
    ensures
        v.run(seq![ESC, CSI_OPEN] + params + seq![last]) == (
            FilterView { buffer: params, ..v },
            seq![ESC, CSI_OPEN] + params + seq![last],
        ),
{
    let head = seq![ESC, CSI_OPEN] + params;
    let inside = FilterView { state: SgrState::AfterCsi, buffer: params, ..v };
    lemma_sequence_opened(v, params);
    lemma_run_one(inside, last);
    lemma_run_concat(v, head, seq![last]);
    assert(!inside.holds_back(last));
    assert(Seq::<u8>::empty() + (seq![ESC, CSI_OPEN] + params + seq![last]) =~= seq![
        ESC,
        CSI_OPEN,
    ] + params + seq![last]);
}

/// A control sequence that is no SGR sequence passes unchanged and leaves
/// the attributes alone. Such a sequence is `ESC [`, parameter bytes that
/// fit the buffer, and a tail: a first byte other than `m` that is no
/// parameter byte, the final byte of the sequence or an intermediate byte,
/// and then any bytes but `ESC`.
pub proof fn lemma_non_sgr_sequence_unchanged(v: FilterView, params: Seq<u8>, tail: Seq<u8>)
    requires
        v.state == SgrState::Init,
        all_param_bytes(params),
        params.len() <= SGR_MAX_LEN,
        tail.len() > 0,
        tail[0] != SGR_FINAL,
        !is_param_byte(tail[0]),
        forall|i: int| 1 <= i < tail.len() ==> tail[i] != ESC,
    ensures
        v.run(seq![ESC, CSI_OPEN] + params + tail) == (
            FilterView { buffer: params, ..v },
            seq![ESC, CSI_OPEN] + params + tail,
        ),
{
    let head = seq![ESC, CSI_OPEN] + params + seq![tail[0]];
    let rest = tail.skip(1);
    let after = FilterView { buffer: params, ..v };
    lemma_sequence_forwarded(v, params, tail[0]);
    lemma_plain_bytes_unchanged(after, rest);
    lemma_run_concat(v, head, rest);
    assert(head + rest =~= seq![ESC, CSI_OPEN] + params + tail);
}

/// A parameter list that outgrows the buffer is not rewritten: once the
/// buffer is full, the next parameter byte ends the sequence, and the
/// buffered bytes pass unchanged with that byte behind them.
pub proof fn lemma_overlong_params_unchanged(v: FilterView, params: Seq<u8>, next: u8)
    requires
        v.state == SgrState::Init,
        all_param_bytes(params),
        params.len() == SGR_MAX_LEN,
        is_param_byte(next),
    ensures
        v.run(seq![ESC, CSI_OPEN] + params + seq![next]) == (
            FilterView { buffer: params, ..v },
            seq![ESC, CSI_OPEN] + params + seq![next],
        ),
{
    lemma_sequence_forwarded(v, params, next);
}

/// An SGR sequence whose parameters fit the buffer is replaced by its
/// rewriting, and the attributes become those that its parameters ask for.
pub proof fn lemma_sgr_sequence_rewritten(v: FilterView, params: Seq<u8>)
    requires
        v.state == SgrState::Init,
        all_param_bytes(params),
        params.len() <= SGR_MAX_LEN,
    ensures
        v.run(seq![ESC, CSI_OPEN] + params + seq![SGR_FINAL]) == (
            FilterView { attrs: rewritten_attrs(v.attrs, params), buffer: params, ..v },
            rewritten(v.attrs, v.bold_colors, params),
        ),
{
    let head = seq![ESC, CSI_OPEN] + params;
    let inside = FilterView { state: SgrState::AfterCsi, buffer: params, ..v };
    lemma_sequence_opened(v, params);
    lemma_run_one(inside, SGR_FINAL);
    lemma_run_concat(v, head, seq![SGR_FINAL]);
    assert(Seq::<u8>::empty() + rewritten(v.attrs, v.bold_colors, params) =~= rewritten(
        v.attrs,
        v.bold_colors,
        params,
    ));
}

} // verus!
