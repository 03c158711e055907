//! The filter itself: a scanner that finds the SGR sequences in a stream of
//! bytes, and the attributes that it keeps from one sequence to the next.

use vstd::prelude::*;
use crate::attrs::{Attributes, Intensity};
use crate::params::{
    CSI_OPEN,
    DIGIT_NINE,
    DIGIT_ZERO,
    ESC,
    SEPARATOR,
    SGR_FINAL,
    all_param_bytes,
    is_param_byte,
    split,
    split_params,
    token_views,
};
use crate::sgr::{
    adjustment,
    forwarded,
    handle_token,
    lemma_frame_listed,
    lemma_listed_concat,
    listed,
    next_token,
    push_bytes,
    rewritten,
    rewritten_attrs,
    token_output,
    updated,
    write_adjustment,
};

verus! {

/// The most parameter bytes that are held back for one sequence. A sequence
/// with more is not taken for an SGR sequence: it is passed on as it came.
pub const SGR_MAX_LEN: usize = 128;

/// Where the scanner stands in the stream.
#[derive(Clone, Copy, PartialEq, Eq, Debug, Structural)]
pub enum SgrState {
    /// Outside any escape sequence.
    Init,
    /// Right after an escape byte.
    AfterEsc,
    /// Inside the parameters of a control sequence.
    AfterCsi,
}

/// Rewrites the SGR sequences in a stream of bytes for a monochrome
/// terminal.
pub struct Filter {
    bold_colors: bool,
    state: SgrState,
    attrs: Attributes,
    /// The parameter bytes of the control sequence that is being read.
    buffer: Vec<u8>,
}

/// What a [`Filter`] is, as a mathematical value.
pub struct FilterView {
    /// Whether a foreground colour is shown as bold text.
    pub bold_colors: bool,
    /// Where the scanner stands.
    pub state: SgrState,
    /// What the program has requested so far.
    pub attrs: Attributes,
    /// The parameter bytes held back since the last `ESC [`.
    pub buffer: Seq<u8>,
}

impl FilterView {
    /// A filter that has seen no input.
    pub open spec fn fresh(bold_colors: bool) -> FilterView {
        FilterView {
            bold_colors,
            state: SgrState::Init,
            attrs: Attributes::initial(),
            buffer: Seq::empty(),
        }
    }

    /// What holds of the buffer of every filter: it is within its bound and
    /// holds nothing but digits and separators.
    pub open spec fn wf(self) -> bool {
        self.buffer.len() <= SGR_MAX_LEN && all_param_bytes(self.buffer)
    }

    /// The bytes of the stream that the filter has taken in and not yet
    /// answered: the beginning of a sequence that is still open.
    pub open spec fn pending(self) -> Seq<u8> {
        match self.state {
            SgrState::Init => Seq::empty(),
            SgrState::AfterEsc => seq![ESC],
            SgrState::AfterCsi => seq![ESC, CSI_OPEN] + self.buffer,
        }
    }

    /// Whether the byte `b` is held back as a parameter byte.
    pub open spec fn holds_back(self, b: u8) -> bool {
        is_param_byte(b) && self.buffer.len() < SGR_MAX_LEN
    }

    /// The filter after the byte `b`, and the bytes sent on for it.
    ///
    /// Outside a sequence every byte but `ESC` is sent on. After `ESC`, a
    /// `[` opens a control sequence; any other byte is sent on behind the
    /// `ESC` that was held back. Inside a control sequence, parameter bytes
    /// are held back while there is room; `m` ends an SGR sequence, which is
    /// rewritten; any other byte, and a parameter byte for which there is no
    /// room, ends a sequence that is sent on with all that was held back.
    pub open spec fn step(self, b: u8) -> (FilterView, Seq<u8>) {
        match self.state {
            SgrState::Init => if b == ESC {
                (FilterView { state: SgrState::AfterEsc, ..self }, Seq::empty())
            } else {
                (self, seq![b])
            },
            SgrState::AfterEsc => if b == CSI_OPEN {
                (FilterView { state: SgrState::AfterCsi, buffer: Seq::empty(), ..self }, Seq::empty())
            } else {
                (FilterView { state: SgrState::Init, ..self }, seq![ESC, b])
            },
            SgrState::AfterCsi => if b == SGR_FINAL {
                (
                    FilterView {
                        state: SgrState::Init,
                        attrs: rewritten_attrs(self.attrs, self.buffer),
                        ..self
                    },
                    rewritten(self.attrs, self.bold_colors, self.buffer),
                )
            } else if self.holds_back(b) {
                (FilterView { buffer: self.buffer.push(b), ..self }, Seq::empty())
            } else {
                (
                    FilterView { state: SgrState::Init, ..self },
                    seq![ESC, CSI_OPEN] + self.buffer + seq![b],
                )
            },
        }
    }

    /// The filter after the bytes of `data`, and all the bytes sent on for
    /// them, in order.
    pub open spec fn run(self, data: Seq<u8>) -> (FilterView, Seq<u8>)
        decreases data.len(),
    {
        if data.len() == 0 {
            (self, Seq::empty())
        } else {
            let (before, sent) = self.run(data.drop_last());
            let (after, more) = before.step(data.last());
            (after, sent + more)
        }
    }
}

/// No byte lets the buffer outgrow its bound or take in a byte that is no
/// parameter byte.
pub proof fn lemma_step_keeps_wf(v: FilterView, b: u8)
    requires
        v.wf(),
    ensures
        v.step(b).0.wf(),
{
    let after = v.step(b).0;
    if v.state == SgrState::AfterCsi && b != SGR_FINAL && v.holds_back(b) {
        assert(after.buffer == v.buffer.push(b));
        assert forall|i: int| 0 <= i < after.buffer.len() implies is_param_byte(
            #[trigger] after.buffer[i],
        ) by {
            if i < v.buffer.len() {
                assert(after.buffer[i] == v.buffer[i]);
            }
        }
    }
}

/// No stream lets the buffer outgrow its bound or take in a byte that is no
/// parameter byte.
pub proof fn lemma_run_keeps_wf(v: FilterView, data: Seq<u8>)
    requires
        v.wf(),
    ensures
        v.run(data).0.wf(),
    decreases data.len(),
{
    if data.len() > 0 {
        lemma_run_keeps_wf(v, data.drop_last());
        lemma_step_keeps_wf(v.run(data.drop_last()).0, data.last());
    }
}

impl View for Filter {
    type V = FilterView;

    closed spec fn view(&self) -> FilterView {
        FilterView {
            bold_colors: self.bold_colors,
            state: self.state,
            attrs: self.attrs,
            buffer: self.buffer@,
        }
    }
}

impl Filter {
    /// Creates a filter for the start of a session. With `bold_colors`,
    /// text in a foreground colour is shown bold.
    pub fn new(bold_colors: bool) -> (filter: Filter)
        ensures
            filter@ == FilterView::fresh(bold_colors),
            filter@.wf(),
    {
        Filter {
            bold_colors,
            state: SgrState::Init,
            attrs: Attributes::new(),
            buffer: Vec::new(),
        }
    }

    /// Whether the real terminal is in reverse video.
    pub fn parent_video_reversed(&self) -> (reversed: bool)
        ensures
            reversed == self@.attrs.shows_reverse(),
    {
        self.attrs.reversed()
    }

    /// The intensity of the real terminal.
    pub fn parent_intensity(&self) -> (intensity: Intensity)
        ensures
            intensity == self@.attrs.shows_intensity(self@.bold_colors),
    {
        self.attrs.shown_intensity(self.bold_colors)
    }

    /// Reads the buffered parameters token by token: updates the attributes
    /// and appends to `out` what is sent on of the tokens themselves.
    /// `any_written` tells whether a token of the sequence was written, before
    /// and after.
    fn read_params(&mut self, out: &mut Vec<u8>, any_written: &mut bool)
        ensures
            final(self)@ == (FilterView {
                attrs: rewritten_attrs(old(self)@.attrs, old(self)@.buffer),
                ..old(self)@
            }),
            final(out)@ == old(out)@ + listed(
                *old(any_written),
                forwarded(split(old(self)@.buffer), 0),
            ),
            *final(any_written) == (*old(any_written) || forwarded(
                split(old(self)@.buffer),
                0,
            ).len() > 0),
    {
        let ghost before = self.attrs;
        let ghost list = split(self.buffer@);
        let ghost mut sent: Seq<Seq<u8>> = Seq::empty();
        let tokens = split_params(self.buffer.as_slice());
        let mut i: usize = 0;
        proof {
            assert(listed(*any_written, sent) =~= Seq::<u8>::empty());
        }
        while i < tokens.len()
            invariant
                i <= tokens.len(),
                token_views(tokens@) == list,
                self.bold_colors == old(self).bold_colors,
                self.state == old(self).state,
                self.buffer@ == old(self).buffer@,
                sent + forwarded(list, i as int) == forwarded(list, 0),
                updated(self.attrs, list, i as int) == updated(before, list, 0),
                out@ == old(out)@ + listed(*old(any_written), sent),
                *any_written == (*old(any_written) || sent.len() > 0),
            decreases tokens.len() - i,
        {
            proof {
                let output = token_output(list[i as int]);
                lemma_listed_concat(*old(any_written), sent, output);
                assert(sent + (output + forwarded(list, next_token(list, i as int))) =~= (sent
                    + output) + forwarded(list, next_token(list, i as int)));
                sent = sent + output;
            }
            i = handle_token(&mut self.attrs, &tokens, i, out, any_written);
        }
        proof {
            assert(sent =~= forwarded(list, 0));
        }
    }

    /// Ends an SGR sequence: reads the buffered parameters, updates the
    /// attributes, and appends to `out` the sequence that is sent in their
    /// place, or nothing where no token is left to send.
    pub fn handle_sgr(&mut self, out: &mut Vec<u8>)
        ensures
            final(self)@ == (FilterView {
                attrs: rewritten_attrs(old(self)@.attrs, old(self)@.buffer),
                ..old(self)@
            }),
            final(out)@ == old(out)@ + rewritten(
                old(self)@.attrs,
                old(self)@.bold_colors,
                old(self)@.buffer,
            ),
    {
        let before = self.attrs;
        let mut any_written = false;
        self.read_params(out, &mut any_written);
        write_adjustment(out, &mut any_written, before, self.attrs, self.bold_colors);
        proof {
            let kept = forwarded(split(old(self)@.buffer), 0);
            let change = adjustment(before, self.attrs, self.bold_colors);
            lemma_listed_concat(false, kept, change);
            lemma_frame_listed(kept + change);
        }
        if any_written {
            out.push(SGR_FINAL);
        }
    }

    /// Takes the next byte of the stream and appends to `out` what is sent
    /// on for it.
    pub fn handle_byte(&mut self, b: u8, out: &mut Vec<u8>)
        ensures
            final(self)@ == old(self)@.step(b).0,
            final(out)@ == old(out)@ + old(self)@.step(b).1,
            old(self)@.wf() ==> final(self)@.wf(),
    {
        proof {
            if self@.wf() {
                lemma_step_keeps_wf(self@, b);
            }
        }
        match self.state {
            SgrState::Init => {
                if b == ESC {
                    self.state = SgrState::AfterEsc;
                } else {
                    out.push(b);
                }
            },
            SgrState::AfterEsc => {
                if b == CSI_OPEN {
                    self.state = SgrState::AfterCsi;
                    self.buffer.clear();
                } else {
                    self.state = SgrState::Init;
                    out.push(ESC);
                    out.push(b);
                }
            },
            SgrState::AfterCsi => {
                if b == SGR_FINAL {
                    self.state = SgrState::Init;
                    self.handle_sgr(out);
                } else if ((DIGIT_ZERO <= b && b <= DIGIT_NINE) || b == SEPARATOR)
                    && self.buffer.len() < SGR_MAX_LEN {
                    self.buffer.push(b);
                } else {
                    self.state = SgrState::Init;
                    out.push(ESC);
                    out.push(CSI_OPEN);
                    push_bytes(out, self.buffer.as_slice());
                    out.push(b);
                }
            },
        }
    }

    /// Filters one chunk of the program's output: takes the bytes of `data`
    /// in order and appends to `out` all that is sent on to the real
    /// terminal for them.
    pub fn on_child_data(&mut self, data: &[u8], out: &mut Vec<u8>)
        ensures
            final(self)@ == old(self)@.run(data@).0,
            final(out)@ == old(out)@ + old(self)@.run(data@).1,
            old(self)@.wf() ==> final(self)@.wf(),
    {
        proof {
            if self@.wf() {
                lemma_run_keeps_wf(self@, data@);
            }
        }
        let mut k: usize = 0;
        proof {
            assert(data@.take(0) =~= Seq::<u8>::empty());
        }
        while k < data.len()
            invariant
                k <= data.len(),
                self@ == old(self)@.run(data@.take(k as int)).0,
                out@ == old(out)@ + old(self)@.run(data@.take(k as int)).1,
            decreases data.len() - k,
        {
            proof {
                assert(data@.take(k + 1).drop_last() =~= data@.take(k as int));
                assert(data@.take(k + 1).last() == data@[k as int]);
            }
            self.handle_byte(data[k], out);
            k += 1;
        }
        proof {
            assert(data@.take(k as int) =~= data@);
        }
    }
}

} // verus!
