//! The parameter bytes of a control sequence: how they split into tokens and
//! which number a token stands for.

use vstd::prelude::*;
use vstd::slice::slice_subrange;

verus! {

/// The escape byte that opens every control sequence.
pub const ESC: u8 = 0x1b;

/// `[`, which after `ESC` introduces a control sequence.
pub const CSI_OPEN: u8 = 0x5b;

/// `;`, which separates the parameters of a control sequence.
pub const SEPARATOR: u8 = 0x3b;

/// `m`, the final byte of an SGR sequence.
pub const SGR_FINAL: u8 = 0x6d;

/// The digit `0`; the other digits follow it in order.
pub const DIGIT_ZERO: u8 = 0x30;

/// The digit `9`.
pub const DIGIT_NINE: u8 = 0x39;

/// Whether `b` is an ASCII decimal digit.
pub open spec fn is_digit(b: u8) -> bool {
    DIGIT_ZERO <= b <= DIGIT_NINE
}

/// Whether `b` may stand in a buffered parameter list.
pub open spec fn is_param_byte(b: u8) -> bool {
    is_digit(b) || b == SEPARATOR
}

/// Whether every byte of `s` may stand in a buffered parameter list.
pub open spec fn all_param_bytes(s: Seq<u8>) -> bool {
    forall|i: int| 0 <= i < s.len() ==> is_param_byte(#[trigger] s[i])
}

/// The tokens of a parameter list, read from left to right: a separator
/// closes the current token and opens an empty one, any other byte extends
/// the current token. A list with `n` separators has `n + 1` tokens.
pub open spec fn split(s: Seq<u8>) -> Seq<Seq<u8>>
    decreases s.len(),
{
    if s.len() == 0 {
        seq![Seq::<u8>::empty()]
    } else {
        let before = split(s.drop_last());
        if s.last() == SEPARATOR {
            before.push(Seq::<u8>::empty())
        } else {
            before.drop_last().push(before.last().push(s.last()))
        }
    }
}

/// The tokens joined again, with one separator between neighbours.
pub open spec fn join(tokens: Seq<Seq<u8>>) -> Seq<u8>
    decreases tokens.len(),
{
    if tokens.len() == 0 {
        Seq::<u8>::empty()
    } else if tokens.len() == 1 {
        tokens[0]
    } else {
        join(tokens.drop_last()) + seq![SEPARATOR] + tokens.last()
    }
}

/// What a run of slices holds, slice by slice.
pub open spec fn token_views(tokens: Seq<&[u8]>) -> Seq<Seq<u8>> {
    Seq::new(tokens.len(), |i: int| tokens[i]@)
}

/// The number a digit stands for; zero for any other byte.
pub open spec fn digit_value(b: u8) -> nat {
    if is_digit(b) {
        (b - DIGIT_ZERO) as nat
    } else {
        0
    }
}

/// Whether `s` consists of decimal digits only.
pub open spec fn all_digits(s: Seq<u8>) -> bool {
    forall|i: int| 0 <= i < s.len() ==> is_digit(#[trigger] s[i])
}

/// The number that the digits of `s` spell in base ten; zero for no digits.
pub open spec fn decimal_value(s: Seq<u8>) -> nat
    decreases s.len(),
{
    if s.len() == 0 {
        0
    } else {
        10 * decimal_value(s.drop_last()) + digit_value(s.last())
    }
}

/// The SGR code that a token stands for: the token read as a decimal number,
/// where the empty token counts as zero. A token with a byte that is no
/// digit, or one that spells more than 255, stands for no code.
pub open spec fn parse_code(token: Seq<u8>) -> Option<u8> {
    if all_digits(token) && decimal_value(token) <= u8::MAX {
        Some(decimal_value(token) as u8)
    } else {
        None
    }
}

/// Every parameter list has at least one token.
pub proof fn lemma_split_nonempty(s: Seq<u8>)
    ensures
        split(s).len() >= 1,
    decreases s.len(),
{
    if s.len() > 0 {
        lemma_split_nonempty(s.drop_last());
    }
}

/// Joining two lists one after the other joins their joins, with a
/// separator between them where neither is empty.
pub proof fn lemma_join_concat(a: Seq<Seq<u8>>, b: Seq<Seq<u8>>)
    ensures
        join(a + b) == if a.len() == 0 {
            join(b)
        } else if b.len() == 0 {
            join(a)
        } else {
            join(a) + seq![SEPARATOR] + join(b)
        },
    decreases b.len(),
{
    if a.len() == 0 {
        assert(a + b =~= b);
    } else if b.len() == 0 {
        assert(a + b =~= a);
    } else {
        let all = a + b;
        assert(all.drop_last() =~= a + b.drop_last());
        assert(all.last() == b.last());
        lemma_join_concat(a, b.drop_last());
        if b.len() == 1 {
            assert(a + b.drop_last() =~= a);
            assert(join(b) == b.last());
        } else {
            assert(join(all) =~= join(a) + seq![SEPARATOR] + (join(b.drop_last()) + seq![
                SEPARATOR,
            ] + b.last()));
        }
    }
}

/// Splitting loses nothing: the tokens of a parameter list, joined again,
/// are the list.
pub proof fn lemma_join_split(s: Seq<u8>)
    ensures
        join(split(s)) == s,
    decreases s.len(),
{
    if s.len() == 0 {
        assert(join(split(s)) =~= s);
    } else {
        let before = split(s.drop_last());
        lemma_join_split(s.drop_last());
        lemma_split_nonempty(s.drop_last());
        if s.last() == SEPARATOR {
            let tokens = before.push(Seq::<u8>::empty());
            assert(tokens.drop_last() =~= before);
            assert(join(tokens) =~= s);
        } else {
            let grown = before.last().push(s.last());
            let tokens = before.drop_last().push(grown);
            assert(tokens.drop_last() =~= before.drop_last());
            if before.len() == 1 {
                assert(join(tokens) =~= s);
            } else {
                assert(join(tokens) =~= (join(before.drop_last()) + seq![SEPARATOR]
                    + before.last()).push(s.last()));
                assert(join(tokens) =~= s);
            }
        }
    }
}

/// A parameter list without a separator is a single token.
pub proof fn lemma_split_without_separator(s: Seq<u8>)
    requires
        forall|k: int| 0 <= k < s.len() ==> s[k] != SEPARATOR,
    ensures
        split(s) == seq![s],
    decreases s.len(),
{
    if s.len() == 0 {
        assert(s =~= Seq::<u8>::empty());
    } else {
        lemma_split_without_separator(s.drop_last());
        let before = seq![s.drop_last()];
        assert(before.last().push(s.last()) =~= s);
        assert(before.drop_last().push(s) =~= seq![s]);
    }
}

/// The tokens of two parameter lists with a separator between them are the
/// tokens of the first, then those of the second.
pub proof fn lemma_split_at_separator(a: Seq<u8>, b: Seq<u8>)
    ensures
        split(a + seq![SEPARATOR] + b) == split(a) + split(b),
    decreases b.len(),
{
    let all = a + seq![SEPARATOR] + b;
    if b.len() == 0 {
        assert(all.drop_last() =~= a);
        assert(split(a).push(Seq::<u8>::empty()) =~= split(a) + seq![Seq::<u8>::empty()]);
    } else {
        let shorter = b.drop_last();
        lemma_split_at_separator(a, shorter);
        lemma_split_nonempty(shorter);
        assert(all.drop_last() =~= a + seq![SEPARATOR] + shorter);
        assert(all.last() == b.last());
        let front = split(a);
        let back = split(shorter);
        assert((front + back).last() == back.last());
        assert((front + back).drop_last() =~= front + back.drop_last());
        if b.last() == SEPARATOR {
            assert((front + back).push(Seq::<u8>::empty()) =~= front + back.push(
                Seq::<u8>::empty(),
            ));
        } else {
            let grown = back.last().push(b.last());
            assert((front + back.drop_last()).push(grown) =~= front + back.drop_last().push(
                grown,
            ));
        }
    }
}

/// No token of a parameter list holds a separator.
pub proof fn lemma_split_tokens_whole(s: Seq<u8>)
    ensures
        forall|j: int, k: int|
            0 <= j < split(s).len() && 0 <= k < split(s)[j].len() ==> #[trigger] split(
                s,
            )[j][k] != SEPARATOR,
    decreases s.len(),
{
    if s.len() > 0 {
        lemma_split_tokens_whole(s.drop_last());
        lemma_split_nonempty(s.drop_last());
    }
}

/// The views of a run of slices grow with the run.
pub proof fn lemma_token_views_push(tokens: Seq<&[u8]>, token: &[u8])
    ensures
        token_views(tokens.push(token)) == token_views(tokens).push(token@),
{
    assert(token_views(tokens.push(token)) =~= token_views(tokens).push(token@));
}

/// A longer run of digits never spells a smaller number than its prefix.
pub proof fn lemma_decimal_value_prefix(s: Seq<u8>, k: int)
    requires
        0 <= k <= s.len(),
    ensures
        decimal_value(s.take(k)) <= decimal_value(s),
    decreases s.len() - k,
{
    if k == s.len() {
        assert(s.take(k) =~= s);
    } else {
        lemma_decimal_value_prefix(s.drop_last(), k);
        assert(s.drop_last().take(k) =~= s.take(k));
    }
}

/// Splits a parameter list at its separators. The tokens borrow from
/// `params`, in order, and none holds a separator.
pub fn split_params<'a>(params: &'a [u8]) -> (tokens: Vec<&'a [u8]>)
    ensures
        token_views(tokens@) == split(params@),
{
    let mut tokens: Vec<&'a [u8]> = Vec::new();
    let mut start: usize = 0;
    let mut k: usize = 0;
    proof {
        assert(params@.take(0) =~= Seq::<u8>::empty());
        assert(token_views(tokens@) =~= split(params@.take(0)).drop_last());
        assert(params@.subrange(0, 0) =~= split(params@.take(0)).last());
    }
    while k < params.len()
        invariant
            start <= k <= params.len(),
            token_views(tokens@) == split(params@.take(k as int)).drop_last(),
            params@.subrange(start as int, k as int) == split(params@.take(k as int)).last(),
        decreases params.len() - k,
    {
        let ghost prefix = params@.take(k as int);
        let ghost longer = params@.take(k + 1);
        proof {
            lemma_split_nonempty(prefix);
            assert(longer.drop_last() =~= prefix);
            assert(longer.last() == params@[k as int]);
        }
        if params[k] == SEPARATOR {
            let token = slice_subrange(params, start, k);
            proof {
                lemma_token_views_push(tokens@, token);
            }
            tokens.push(token);
            start = k + 1;
            proof {
                assert(split(longer) == split(prefix).push(Seq::<u8>::empty()));
                assert(split(prefix).drop_last().push(split(prefix).last()) =~= split(prefix));
                assert(split(longer).drop_last() =~= split(prefix));
                assert(params@.subrange(start as int, k + 1) =~= split(longer).last());
            }
        } else {
            proof {
                assert(split(longer) == split(prefix).drop_last().push(
                    split(prefix).last().push(params@[k as int]),
                ));
                assert(split(longer).drop_last() =~= split(prefix).drop_last());
                assert(params@.subrange(start as int, k + 1) =~= params@.subrange(
                    start as int,
                    k as int,
                ).push(params@[k as int]));
            }
        }
        k += 1;
    }
    let token = slice_subrange(params, start, k);
    proof {
        lemma_token_views_push(tokens@, token);
        assert(params@.take(k as int) =~= params@);
        lemma_split_nonempty(params@);
        assert(split(params@).drop_last().push(split(params@).last()) =~= split(params@));
    }
    tokens.push(token);
    tokens
}

/// Reads a token as an SGR code.
pub fn parse_token(token: &[u8]) -> (code: Option<u8>)
    ensures
        code == parse_code(token@),
{
    let mut value: u16 = 0;
    let mut k: usize = 0;
    proof {
        assert(token@.take(0) =~= Seq::<u8>::empty());
    }
    while k < token.len()
        invariant
            k <= token.len(),
            all_digits(token@.take(k as int)),
            value == decimal_value(token@.take(k as int)),
            value <= u8::MAX,
        decreases token.len() - k,
    {
        let b: u8 = token[k];
        if b < DIGIT_ZERO || b > DIGIT_NINE {
            proof {
                assert(!is_digit(token@[k as int]));
            }
            return None;
        }
        let next: u16 = 10 * value + (b - DIGIT_ZERO) as u16;
        proof {
            let longer = token@.take(k + 1);
            assert(longer.drop_last() =~= token@.take(k as int));
            assert(longer.last() == b);
            assert(next == decimal_value(longer));
            assert forall|i: int| 0 <= i < longer.len() implies is_digit(#[trigger] longer[i]) by {
                if i < k {
                    assert(longer[i] == token@.take(k as int)[i]);
                }
            }
        }
        if next > 255 {
            proof {
                lemma_decimal_value_prefix(token@, k + 1);
            }
            return None;
        }
        value = next;
        k += 1;
    }
    proof {
        assert(token@.take(k as int) =~= token@);
    }
    Some(value as u8)
}

} // verus!
