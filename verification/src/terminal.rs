//! The real terminal, as far as the filter drives it: whether it shows
//! reverse video, and at which intensity. What it shows follows the codes
//! that the filter sends; this module states that the codes sent in place of
//! an SGR sequence take the terminal where the attributes say.

use vstd::prelude::*;
use crate::attrs::{Attributes, Intensity};
use crate::params::{parse_code, split};
use crate::sgr::{
    adjustment,
    forwarded,
    intensity_adjustment,
    lemma_code_token_parses,
    next_token,
    reverse_adjustment,
    rewritten_attrs,
    rewritten_tokens,
    token_output,
};

verus! {

/// What a terminal shows of the two attributes that the filter drives.
pub struct Shown {
    /// Reverse video is on.
    pub reverse: bool,
    /// The weight of the text.
    pub intensity: Intensity,
}

impl Shown {
    /// What a terminal shows after a reset.
    pub open spec fn plain() -> Shown {
        Shown { reverse: false, intensity: Intensity::Normal }
    }

    /// What the terminal shows after it received `code`. Only a reset, the
    /// codes for reverse video and those for the intensity change it.
    pub open spec fn after_code(self, code: u8) -> Shown {
        if code == 0 {
            Shown::plain()
        } else if code == 7 {
            Shown { reverse: true, ..self }
        } else if code == 27 {
            Shown { reverse: false, ..self }
        } else if code == 1 {
            Shown { intensity: Intensity::High, ..self }
        } else if code == 2 {
            Shown { intensity: Intensity::Low, ..self }
        } else if code == 22 {
            Shown { intensity: Intensity::Normal, ..self }
        } else {
            self
        }
    }

    /// What the terminal shows after it received `token`. A token that
    /// stands for no code changes nothing.
    pub open spec fn after_token(self, token: Seq<u8>) -> Shown {
        match parse_code(token) {
            Some(code) => self.after_code(code),
            None => self,
        }
    }

    /// What the terminal shows after it received `tokens`, in order.
    pub open spec fn after_tokens(self, tokens: Seq<Seq<u8>>) -> Shown
        decreases tokens.len(),
    {
        if tokens.len() == 0 {
            self
        } else {
            self.after_tokens(tokens.drop_last()).after_token(tokens.last())
        }
    }
}

impl Attributes {
    /// What the real terminal has to show for these attributes.
    pub open spec fn shown(self, bold_colors: bool) -> Shown {
        Shown { reverse: self.shows_reverse(), intensity: self.shows_intensity(bold_colors) }
    }
}

/// Whether one of `tokens` reads as a reset.
pub open spec fn has_reset(tokens: Seq<Seq<u8>>) -> bool {
    exists|j: int| 0 <= j < tokens.len() && parse_code(#[trigger] tokens[j]) == Some(0u8)
}

/// A terminal that receives two lists of tokens one after the other shows
/// what it shows after receiving them as one list.
pub proof fn lemma_after_tokens_concat(shown: Shown, a: Seq<Seq<u8>>, b: Seq<Seq<u8>>)
    ensures
        shown.after_tokens(a + b) == shown.after_tokens(a).after_tokens(b),
    decreases b.len(),
{
    if b.len() == 0 {
        assert(a + b =~= a);
    } else {
        assert((a + b).drop_last() =~= a + b.drop_last());
        assert((a + b).last() == b.last());
        lemma_after_tokens_concat(shown, a, b.drop_last());
    }
}

/// A terminal that receives a single token.
pub proof fn lemma_after_one_token(shown: Shown, token: Seq<u8>)
    ensures
        shown.after_tokens(seq![token]) == shown.after_token(token),
{
    let tokens = seq![token];
    assert(tokens.drop_last() =~= Seq::<Seq<u8>>::empty());
    assert(tokens.last() == token);
    assert(shown.after_tokens(tokens.drop_last()) == shown);
}

/// What is sent on of a sequence's own tokens changes what the terminal
/// shows only through a reset: the codes for reverse video and intensity
/// are all held back.
pub proof fn lemma_forwarded_keeps_shown(shown: Shown, tokens: Seq<Seq<u8>>, i: int)
    requires
        !has_reset(forwarded(tokens, i)),
    ensures
        shown.after_tokens(forwarded(tokens, i)) == shown,
    decreases tokens.len() - i,
{
    if 0 <= i < tokens.len() {
        let first = token_output(tokens[i]);
        let rest = forwarded(tokens, next_token(tokens, i));
        let all = forwarded(tokens, i);
        assert(all == first + rest);
        assert forall|j: int| 0 <= j < rest.len() implies parse_code(#[trigger] rest[j]) != Some(
            0u8,
        ) by {
            assert(all[first.len() + j] == rest[j]);
        }
        lemma_forwarded_keeps_shown(shown, tokens, next_token(tokens, i));
        lemma_after_tokens_concat(shown, first, rest);
        if first.len() == 0 {
            assert(shown.after_tokens(first) == shown);
        } else {
            assert(first =~= seq![first[0]]);
            assert(all[0] == first[0]);
            lemma_after_one_token(shown, first[0]);
            lemma_code_token_parses(0);
        }
    }
}

/// The adjustment takes the terminal from what it shows to what it has to
/// show.
pub proof fn lemma_adjustment_reaches(before: Attributes, after: Attributes, bold_colors: bool)
    ensures
        before.shown(bold_colors).after_tokens(adjustment(before, after, bold_colors))
            == after.shown(bold_colors),
{
    let start = before.shown(bold_colors);
    let turn = reverse_adjustment(before.shows_reverse(), after.shows_reverse());
    let weight = intensity_adjustment(
        before.shows_intensity(bold_colors),
        after.shows_intensity(bold_colors),
    );
    let turned = Shown { reverse: after.shows_reverse(), ..start };
    lemma_code_token_parses(7);
    lemma_code_token_parses(27);
    lemma_code_token_parses(1);
    lemma_code_token_parses(2);
    lemma_code_token_parses(22);
    lemma_after_tokens_concat(start, turn, weight);
    if turn.len() > 0 {
        assert(turn =~= seq![turn[0]]);
        lemma_after_one_token(start, turn[0]);
    }
    assert(start.after_tokens(turn) == turned);
    if weight.len() > 0 {
        assert(weight =~= seq![weight[0]]);
        lemma_after_one_token(turned, weight[0]);
    }
    assert(turned.after_tokens(weight) == after.shown(bold_colors));
}

/// The real terminal follows the attributes. Where it shows what the
/// attributes before an SGR sequence ask for, and the sequence sends no
/// reset, then after the tokens sent in place of the sequence it shows what
/// the attributes after the sequence ask for. (A reset leaves the terminal
/// plain, while the adjustment is measured from what the terminal showed
/// before the sequence.)
pub proof fn lemma_terminal_follows_attributes(
    attrs: Attributes,
    bold_colors: bool,
    params: Seq<u8>,
)
    requires
        !has_reset(forwarded(split(params), 0)),
    ensures
        attrs.shown(bold_colors).after_tokens(rewritten_tokens(attrs, bold_colors, params))
            == rewritten_attrs(attrs, params).shown(bold_colors),
{
    let start = attrs.shown(bold_colors);
    let after = rewritten_attrs(attrs, params);
    let kept = forwarded(split(params), 0);
    lemma_forwarded_keeps_shown(start, split(params), 0);
    lemma_adjustment_reaches(attrs, after, bold_colors);
    lemma_after_tokens_concat(start, kept, adjustment(attrs, after, bold_colors));
}

} // verus!
