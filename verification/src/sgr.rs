//! What an SGR sequence means to a monochrome terminal, and what is sent in
//! its place.
//!
//! The parameters of a sequence are a list of tokens. Each token is read as
//! a code. A code that selects a colour, reverse video or an intensity only
//! updates the [`Attributes`]; it is not sent on. A reset is sent on as `0`.
//! Anything else is sent on as it came. Once the whole list is read, the
//! sequence is completed with the codes that bring the real terminal from
//! what it showed before the sequence to what it has to show after it.

use vstd::prelude::*;
use crate::attrs::{Attributes, Intensity};
use crate::params::{
    CSI_OPEN,
    DIGIT_ZERO,
    ESC,
    SEPARATOR,
    SGR_FINAL,
    all_digits,
    decimal_value,
    join,
    lemma_join_concat,
    parse_code,
    parse_token,
    split,
    token_views,
};

verus! {

/// Whether `code` selects a foreground colour: one of the eight standard or
/// the eight bright colours, or an extended colour.
pub open spec fn sets_foreground(code: u8) -> bool {
    30 <= code <= 38 || 90 <= code <= 97
}

/// Whether `code` selects a background colour: one of the eight standard or
/// the eight bright colours, or an extended colour.
pub open spec fn sets_background(code: u8) -> bool {
    40 <= code <= 48 || 100 <= code <= 107
}

/// Whether `code` has to do with colour: it selects a foreground, background
/// or underline colour, or returns one of them to its default.
pub open spec fn is_color_code(code: u8) -> bool {
    30 <= code <= 49 || code == 58 || code == 59 || 90 <= code <= 97 || 100 <= code <= 107
}

/// Whether `code` opens an extended colour, whose description follows in the
/// next tokens.
pub open spec fn is_extended_color(code: u8) -> bool {
    code == 38 || code == 48
}

/// Whether `code` is taken out of the sequence: the intensities, reverse
/// video, every colour selection including the defaults, and the underline
/// colour.
pub open spec fn is_absorbed(code: u8) -> bool {
    code == 1 || code == 2 || code == 22 || code == 7 || code == 27 || 30 <= code <= 49 || code
        == 58 || code == 59 || 90 <= code <= 97 || 100 <= code <= 107
}

impl Attributes {
    /// The attributes after `code` took effect.
    pub open spec fn applied(self, code: u8) -> Attributes {
        Attributes {
            background_set: if sets_background(code) {
                true
            } else if code == 0 || code == 49 {
                false
            } else {
                self.background_set
            },
            video_reversed: if code == 7 {
                true
            } else if code == 0 || code == 27 {
                false
            } else {
                self.video_reversed
            },
            foreground_set: if sets_foreground(code) {
                true
            } else if code == 0 || code == 39 {
                false
            } else {
                self.foreground_set
            },
            intensity: if code == 1 {
                Intensity::High
            } else if code == 2 {
                Intensity::Low
            } else if code == 0 || code == 22 {
                Intensity::Normal
            } else {
                self.intensity
            },
        }
    }

    /// The attributes after `token` took effect. A token that stands for no
    /// code changes nothing.
    pub open spec fn applied_token(self, token: Seq<u8>) -> Attributes {
        match parse_code(token) {
            Some(code) => self.applied(code),
            None => self,
        }
    }
}

/// The token that spells `code` in decimal, without leading zeros.
pub open spec fn code_token(code: u8) -> Seq<u8> {
    if code < 10 {
        seq![(DIGIT_ZERO + code) as u8]
    } else if code < 100 {
        seq![(DIGIT_ZERO + code / 10) as u8, (DIGIT_ZERO + code % 10) as u8]
    } else {
        seq![
            (DIGIT_ZERO + code / 100) as u8,
            (DIGIT_ZERO + (code / 10) % 10) as u8,
            (DIGIT_ZERO + code % 10) as u8,
        ]
    }
}

/// What is sent on for one token: `0` for a reset, nothing for an absorbed
/// code, and the token itself for everything else.
pub open spec fn token_output(token: Seq<u8>) -> Seq<Seq<u8>> {
    match parse_code(token) {
        Some(code) => if code == 0 {
            seq![code_token(0)]
        } else if is_absorbed(code) {
            Seq::empty()
        } else {
            seq![token]
        },
        None => seq![token],
    }
}

/// The index of the first token after the colour description that starts at
/// token `i`. The description is its first token, followed by one more token
/// if the first reads 5 (a palette index) or by three more if it reads 2
/// (red, green, blue). A description that the list cuts short ends with the
/// list.
pub open spec fn color_end(tokens: Seq<Seq<u8>>, i: int) -> int {
    if i >= tokens.len() {
        i
    } else {
        let width: int = match parse_code(tokens[i]) {
            Some(code) => if code == 5 {
                2
            } else if code == 2 {
                4
            } else {
                1
            },
            None => 1,
        };
        if i + width <= tokens.len() {
            i + width
        } else {
            tokens.len() as int
        }
    }
}

/// The index of the token that is read after token `i`: the next one, or
/// for an extended colour the one after its description.
pub open spec fn next_token(tokens: Seq<Seq<u8>>, i: int) -> int {
    match parse_code(tokens[i]) {
        Some(code) => if is_extended_color(code) {
            color_end(tokens, i + 1)
        } else {
            i + 1
        },
        None => i + 1,
    }
}

/// What is sent on for the tokens from index `i` on.
pub open spec fn forwarded(tokens: Seq<Seq<u8>>, i: int) -> Seq<Seq<u8>>
    decreases tokens.len() - i,
{
    if 0 <= i < tokens.len() {
        token_output(tokens[i]) + forwarded(tokens, next_token(tokens, i))
    } else {
        Seq::empty()
    }
}

/// The attributes after the tokens from index `i` on took effect on `attrs`.
pub open spec fn updated(attrs: Attributes, tokens: Seq<Seq<u8>>, i: int) -> Attributes
    decreases tokens.len() - i,
{
    if 0 <= i < tokens.len() {
        updated(attrs.applied_token(tokens[i]), tokens, next_token(tokens, i))
    } else {
        attrs
    }
}

/// The code that switches reverse video to `after` where the real terminal
/// showed `before`: `7` or `27`, or nothing where the two agree.
pub open spec fn reverse_adjustment(before: bool, after: bool) -> Seq<Seq<u8>> {
    if after == before {
        Seq::empty()
    } else if after {
        seq![code_token(7)]
    } else {
        seq![code_token(27)]
    }
}

/// The code that sets the intensity `after` where the real terminal showed
/// `before`: `1`, `2` or `22`, or nothing where the two agree.
pub open spec fn intensity_adjustment(before: Intensity, after: Intensity) -> Seq<Seq<u8>> {
    if after == before {
        Seq::empty()
    } else {
        match after {
            Intensity::High => seq![code_token(1)],
            Intensity::Low => seq![code_token(2)],
            Intensity::Normal => seq![code_token(22)],
        }
    }
}

/// The codes that bring the real terminal from showing `before` to showing
/// `after`: reverse video first, then the intensity.
pub open spec fn adjustment(before: Attributes, after: Attributes, bold_colors: bool) -> Seq<
    Seq<u8>,
> {
    reverse_adjustment(before.shows_reverse(), after.shows_reverse()) + intensity_adjustment(
        before.shows_intensity(bold_colors),
        after.shows_intensity(bold_colors),
    )
}

/// A list of tokens as one SGR sequence; no bytes at all for an empty list.
pub open spec fn frame(tokens: Seq<Seq<u8>>) -> Seq<u8> {
    if tokens.len() == 0 {
        Seq::empty()
    } else {
        seq![ESC, CSI_OPEN] + join(tokens) + seq![SGR_FINAL]
    }
}

/// The attributes after the SGR sequence with the parameters `params`.
pub open spec fn rewritten_attrs(attrs: Attributes, params: Seq<u8>) -> Attributes {
    updated(attrs, split(params), 0)
}

/// The tokens sent in place of the SGR sequence with the parameters
/// `params`: what is sent on of its own tokens, then the adjustment from
/// the attributes before the sequence to those after it.
pub open spec fn rewritten_tokens(attrs: Attributes, bold_colors: bool, params: Seq<u8>) -> Seq<
    Seq<u8>,
> {
    forwarded(split(params), 0) + adjustment(attrs, rewritten_attrs(attrs, params), bold_colors)
}

/// The bytes sent in place of the SGR sequence with the parameters `params`.
pub open spec fn rewritten(attrs: Attributes, bold_colors: bool, params: Seq<u8>) -> Seq<u8> {
    frame(rewritten_tokens(attrs, bold_colors, params))
}

/// What precedes a token in the output: the introducer before the first
/// token of a sequence, a separator before every other.
pub open spec fn token_lead(any_written: bool) -> Seq<u8> {
    if any_written {
        seq![SEPARATOR]
    } else {
        seq![ESC, CSI_OPEN]
    }
}

/// The bytes written for `tokens` where they continue a sequence of which
/// some token was written already (`any_written`), or else begin one: the
/// lead and the tokens joined. For no tokens, nothing is written. The final
/// byte of the sequence is not part of it.
pub open spec fn listed(any_written: bool, tokens: Seq<Seq<u8>>) -> Seq<u8> {
    if tokens.len() == 0 {
        Seq::empty()
    } else {
        token_lead(any_written) + join(tokens)
    }
}

/// Writing a list of tokens and then a second one writes the two lists as
/// one.
pub proof fn lemma_listed_concat(any_written: bool, a: Seq<Seq<u8>>, b: Seq<Seq<u8>>)
    ensures
        listed(any_written, a + b) == listed(any_written, a) + listed(
            any_written || a.len() > 0,
            b,
        ),
{
    lemma_join_concat(a, b);
    if a.len() == 0 {
        assert(a + b =~= b);
        assert(listed(any_written, b) =~= Seq::<u8>::empty() + listed(any_written, b));
    } else if b.len() == 0 {
        assert(a + b =~= a);
        assert(listed(any_written, a) =~= listed(any_written, a) + Seq::<u8>::empty());
    } else {
        assert(token_lead(any_written) + (join(a) + seq![SEPARATOR] + join(b)) =~= (token_lead(
            any_written,
        ) + join(a)) + (seq![SEPARATOR] + join(b)));
    }
}

/// A framed list is the list as it was written, closed by the final byte.
pub proof fn lemma_frame_listed(tokens: Seq<Seq<u8>>)
    ensures
        frame(tokens) == if tokens.len() == 0 {
            Seq::<u8>::empty()
        } else {
            listed(false, tokens) + seq![SGR_FINAL]
        },
{
}

/// A code spelled in decimal reads back as that code.
pub proof fn lemma_code_token_parses(code: u8)
    ensures
        parse_code(code_token(code)) == Some(code),
{
    let token = code_token(code);
    reveal_with_fuel(decimal_value, 4);
    assert(all_digits(token));
    if code < 10 {
        assert(token.drop_last() =~= Seq::<u8>::empty());
    } else if code < 100 {
        assert(token.drop_last().drop_last() =~= Seq::<u8>::empty());
    } else {
        assert(token.drop_last().drop_last().drop_last() =~= Seq::<u8>::empty());
    }
    assert(decimal_value(token) == code);
}

/// Whether `token` reads as a code that has to do with colour.
pub open spec fn is_color_token(token: Seq<u8>) -> bool {
    match parse_code(token) {
        Some(code) => is_color_code(code),
        None => false,
    }
}

/// Of the tokens of a sequence, none that reads as a colour code is sent
/// on.
pub proof fn lemma_forwarded_without_color(tokens: Seq<Seq<u8>>, i: int)
    ensures
        forall|j: int|
            0 <= j < forwarded(tokens, i).len() ==> !is_color_token(
                #[trigger] forwarded(tokens, i)[j],
            ),
    decreases tokens.len() - i,
{
    if 0 <= i < tokens.len() {
        let first = token_output(tokens[i]);
        let rest = forwarded(tokens, next_token(tokens, i));
        lemma_forwarded_without_color(tokens, next_token(tokens, i));
        lemma_code_token_parses(0);
        assert forall|j: int| 0 <= j < first.len() implies !is_color_token(#[trigger] first[j]) by {
            assert(first[j] == code_token(0) || first[j] == tokens[i]);
        }
        assert forall|j: int| 0 <= j < (first + rest).len() implies !is_color_token(
            #[trigger] (first + rest)[j],
        ) by {
            if j < first.len() {
                assert((first + rest)[j] == first[j]);
            } else {
                assert((first + rest)[j] == rest[j - first.len()]);
            }
        }
    }
}

/// No token that is sent in place of an SGR sequence reads as a colour
/// code: whatever the sequence asked for, no colour reaches the real
/// terminal through it.
pub proof fn lemma_rewritten_without_color(attrs: Attributes, bold_colors: bool, params: Seq<u8>)
    ensures
        forall|j: int|
            0 <= j < rewritten_tokens(attrs, bold_colors, params).len() ==> !is_color_token(
                #[trigger] rewritten_tokens(attrs, bold_colors, params)[j],
            ),
{
    let kept = forwarded(split(params), 0);
    let change = adjustment(attrs, rewritten_attrs(attrs, params), bold_colors);
    lemma_forwarded_without_color(split(params), 0);
    lemma_code_token_parses(7);
    lemma_code_token_parses(27);
    lemma_code_token_parses(1);
    lemma_code_token_parses(2);
    lemma_code_token_parses(22);
    assert forall|j: int| 0 <= j < change.len() implies !is_color_token(#[trigger] change[j]) by {
        assert(change[j] == code_token(7) || change[j] == code_token(27) || change[j]
            == code_token(1) || change[j] == code_token(2) || change[j] == code_token(22));
    }
    assert forall|j: int| 0 <= j < (kept + change).len() implies !is_color_token(
        #[trigger] (kept + change)[j],
    ) by {
        if j < kept.len() {
            assert((kept + change)[j] == kept[j]);
        } else {
            assert((kept + change)[j] == change[j - kept.len()]);
        }
    }
}

/// Appends `bytes` to `out`.
pub(crate) fn push_bytes(out: &mut Vec<u8>, bytes: &[u8])
    ensures
        final(out)@ == old(out)@ + bytes@,
{
    let mut k: usize = 0;
    while k < bytes.len()
        invariant
            k <= bytes.len(),
            out@ == old(out)@ + bytes@.take(k as int),
        decreases bytes.len() - k,
    {
        out.push(bytes[k]);
        proof {
            assert(bytes@.take(k + 1) =~= bytes@.take(k as int).push(bytes@[k as int]));
        }
        k += 1;
    }
    proof {
        assert(bytes@.take(k as int) =~= bytes@);
    }
}

/// Appends the lead of the next token to `out` and records that a token was
/// written.
fn write_lead(out: &mut Vec<u8>, any_written: &mut bool)
    ensures
        final(out)@ == old(out)@ + token_lead(*old(any_written)),
        *final(any_written),
{
    if *any_written {
        out.push(SEPARATOR);
    } else {
        out.push(ESC);
        out.push(CSI_OPEN);
    }
    *any_written = true;
}

/// Appends the token `arg` to the sequence that is being written to `out`.
pub fn write_arg(out: &mut Vec<u8>, any_written: &mut bool, arg: &[u8])
    ensures
        final(out)@ == old(out)@ + listed(*old(any_written), seq![arg@]),
        *final(any_written),
{
    write_lead(out, any_written);
    push_bytes(out, arg);
    proof {
        assert(join(seq![arg@]) == arg@);
        assert(out@ =~= old(out)@ + (token_lead(*old(any_written)) + arg@));
    }
}

/// Appends `code`, spelled in decimal, as the next token of the sequence
/// that is being written to `out`.
pub fn write_code(out: &mut Vec<u8>, any_written: &mut bool, code: u8)
    ensures
        final(out)@ == old(out)@ + listed(*old(any_written), seq![code_token(code)]),
        *final(any_written),
{
    write_lead(out, any_written);
    if code >= 100 {
        out.push(DIGIT_ZERO + code / 100);
    }
    if code >= 10 {
        out.push(DIGIT_ZERO + (code / 10) % 10);
    }
    out.push(DIGIT_ZERO + code % 10);
    proof {
        assert(join(seq![code_token(code)]) == code_token(code));
        assert(out@ =~= old(out)@ + (token_lead(*old(any_written)) + code_token(code)));
    }
}

/// Appends the code that switches reverse video from `before` to `after`,
/// if the two differ.
pub fn write_reverse(out: &mut Vec<u8>, any_written: &mut bool, before: bool, after: bool)
    ensures
        final(out)@ == old(out)@ + listed(*old(any_written), reverse_adjustment(before, after)),
        *final(any_written) == (*old(any_written) || after != before),
{
    if after != before {
        write_code(
            out,
            any_written,
            if after {
                7
            } else {
                27
            },
        );
    }
}

/// Appends the code that changes the intensity from `before` to `after`, if
/// the two differ.
pub fn write_intensity(
    out: &mut Vec<u8>,
    any_written: &mut bool,
    before: Intensity,
    after: Intensity,
)
    ensures
        final(out)@ == old(out)@ + listed(*old(any_written), intensity_adjustment(before, after)),
        *final(any_written) == (*old(any_written) || after != before),
{
    if after != before {
        write_code(
            out,
            any_written,
            match after {
                Intensity::High => 1,
                Intensity::Low => 2,
                Intensity::Normal => 22,
            },
        );
    }
}

/// Appends the codes that bring the real terminal from showing `before` to
/// showing `after`.
pub fn write_adjustment(
    out: &mut Vec<u8>,
    any_written: &mut bool,
    before: Attributes,
    after: Attributes,
    bold_colors: bool,
)
    ensures
        final(out)@ == old(out)@ + listed(
            *old(any_written),
            adjustment(before, after, bold_colors),
        ),
        *final(any_written) == (*old(any_written) || adjustment(before, after, bold_colors).len()
            > 0),
{
    proof {
        lemma_listed_concat(
            *any_written,
            reverse_adjustment(before.shows_reverse(), after.shows_reverse()),
            intensity_adjustment(
                before.shows_intensity(bold_colors),
                after.shows_intensity(bold_colors),
            ),
        );
    }
    write_reverse(out, any_written, before.reversed(), after.reversed());
    write_intensity(
        out,
        any_written,
        before.shown_intensity(bold_colors),
        after.shown_intensity(bold_colors),
    );
}

/// Reads the token at index `i` of a parameter list: updates `attrs` by its
/// code and appends to `out` what is sent on for it. The result is the index
/// of the token to read next.
pub fn handle_token(
    attrs: &mut Attributes,
    tokens: &Vec<&[u8]>,
    i: usize,
    out: &mut Vec<u8>,
    any_written: &mut bool,
) -> (next: usize)
    requires
        i < tokens.len(),
    ensures
        next == next_token(token_views(tokens@), i as int),
        *final(attrs) == old(attrs).applied_token(token_views(tokens@)[i as int]),
        final(out)@ == old(out)@ + listed(
            *old(any_written),
            token_output(token_views(tokens@)[i as int]),
        ),
        *final(any_written) == (*old(any_written) || token_output(
            token_views(tokens@)[i as int],
        ).len() > 0),
{
    let token: &[u8] = tokens[i];
    let mut next: usize = i + 1;
    let mut forward = false;
    match parse_token(token) {
        Some(0) => {
            *attrs = Attributes::new();
            write_code(out, any_written, 0);
        },
        Some(1) => {
            attrs.intensity = Intensity::High;
        },
        Some(2) => {
            attrs.intensity = Intensity::Low;
        },
        Some(22) => {
            attrs.intensity = Intensity::Normal;
        },
        Some(30..=37 | 90..=97) => {
            attrs.foreground_set = true;
        },
        Some(38) => {
            next = skip_38_48(tokens, i + 1);
            attrs.foreground_set = true;
        },
        Some(39) => {
            attrs.foreground_set = false;
        },
        Some(58 | 59) => {},
        Some(7) => {
            attrs.video_reversed = true;
        },
        Some(27) => {
            attrs.video_reversed = false;
        },
        Some(40..=47 | 100..=107) => {
            attrs.background_set = true;
        },
        Some(48) => {
            next = skip_38_48(tokens, i + 1);
            attrs.background_set = true;
        },
        Some(49) => {
            attrs.background_set = false;
        },
        _ => {
            forward = true;
        },
    }
    if forward {
        write_arg(out, any_written, token);
    }
    next
}

/// Skips the description of an extended colour. `i` is the index of the
/// token after the code 38 or 48; the result is the index of the first token
/// that is read as a code again.
pub fn skip_38_48(tokens: &Vec<&[u8]>, i: usize) -> (end: usize)
    ensures
        end == color_end(token_views(tokens@), i as int),
{
    let len: usize = tokens.len();
    if i >= len {
        return i;
    }
    let width: usize = match parse_token(tokens[i]) {
        Some(code) => if code == 5 {
            2
        } else if code == 2 {
            4
        } else {
            1
        },
        None => 1,
    };
    if width <= len - i {
        i + width
    } else {
        len
    }
}

} // verus!
