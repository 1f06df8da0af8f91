//! What follows from the lexical rules: how a scan grows, that it leaves no
//! byte out and counts none twice, and that there is only one.

use crate::grammar::{is_lexeme, is_recognized, is_space, is_token, is_word, laid_out, tokenizes};
use crate::lexer::{is_outcome, LexError, TokenView};
use vstd::prelude::*;

verus! {

/// Nothing has been scanned yet: the empty scan of the empty range.
pub proof fn lemma_tokenizes_nothing(input: Seq<u8>, from: int)
    requires
        0 <= from <= input.len(),
    ensures
        tokenizes(input, from, from, Seq::<TokenView>::empty()),
{
}

/// A scan grows by the token that begins where it ends.
pub proof fn lemma_tokenizes_push(
    input: Seq<u8>,
    from: int,
    to: int,
    tokens: Seq<TokenView>,
    t: TokenView,
)
    requires
        tokenizes(input, from, to, tokens),
        is_token(input, t),
        t.loc.0 == to,
    ensures
        tokenizes(input, from, t.loc.1 as int, tokens.push(t)),
{
    let grown = tokens.push(t);
    let n = tokens.len() as int;
    assert forall|i: int| from <= i < t.loc.1 implies is_space(#[trigger] input[i]) || exists|k: int|
        0 <= k < grown.len() && (#[trigger] grown[k]).loc.contains(i) by {
        if i < to {
            if !is_space(input[i]) {
                let k = choose|k: int| 0 <= k < tokens.len() && (#[trigger] tokens[k]).loc.contains(i);
                assert(grown[k].loc.contains(i));
            }
        } else {
            assert(grown[n].loc.contains(i));
        }
    }
}

/// A scan stays a scan over the whitespace that follows it.
pub proof fn lemma_tokenizes_skip(
    input: Seq<u8>,
    from: int,
    to: int,
    tokens: Seq<TokenView>,
    beyond: int,
)
    requires
        tokenizes(input, from, to, tokens),
        to <= beyond <= input.len(),
        forall|i: int| to <= i < beyond ==> is_space(#[trigger] input[i]),
    ensures
        tokenizes(input, from, beyond, tokens),
{
}

/// Every byte of a token is one that some rule accepts, and none is
/// whitespace.
pub proof fn lemma_token_bytes(input: Seq<u8>, t: TokenView, i: int)
    requires
        is_token(input, t),
        t.loc.contains(i),
    ensures
        is_recognized(input[i]),
        !is_space(input[i]),
{
}

/// Every byte of a scanned range is one that some rule accepts.
pub proof fn lemma_tokenizes_recognized(input: Seq<u8>, from: int, to: int, tokens: Seq<TokenView>)
    requires
        tokenizes(input, from, to, tokens),
    ensures
        forall|i: int| from <= i < to ==> is_recognized(#[trigger] input[i]),
{
    assert forall|i: int| from <= i < to implies is_recognized(#[trigger] input[i]) by {
        if !is_space(input[i]) {
            let k = choose|k: int| 0 <= k < tokens.len() && (#[trigger] tokens[k]).loc.contains(i);
            lemma_token_bytes(input, tokens[k], i);
        }
    }
}

/// The text of a token that begins at a given byte ends at one place only.
pub proof fn lemma_lexeme_end_unique(input: Seq<u8>, start: int, end_a: int, end_b: int)
    requires
        is_lexeme(input, start, end_a),
        is_lexeme(input, start, end_b),
    ensures
        end_a == end_b,
{
    if end_a < end_b {
        assert(end_a < input.len());
        let at_end = input[end_a];
    } else if end_b < end_a {
        assert(end_b < input.len());
        let at_end = input[end_b];
    }
}

/// Two tokens of the same input that begin at the same byte are the same.
pub proof fn lemma_token_unique(input: Seq<u8>, a: TokenView, b: TokenView)
    requires
        is_token(input, a),
        is_token(input, b),
        a.loc.0 == b.loc.0,
    ensures
        a == b,
{
    lemma_lexeme_end_unique(input, a.loc.0 as int, a.loc.1 as int, b.loc.1 as int);
}

/// Two scans of the same range agree on their first `k` tokens, for every
/// `k` up to the length of the first.
proof fn lemma_scans_agree(
    input: Seq<u8>,
    from: int,
    to: int,
    a: Seq<TokenView>,
    b: Seq<TokenView>,
    k: int,
)
    requires
        tokenizes(input, from, to, a),
        tokenizes(input, from, to, b),
        0 <= k <= a.len(),
    ensures
        k <= b.len(),
        forall|j: int| 0 <= j < k ==> a[j] == b[j],
    decreases k,
{
    if k > 0 {
        let n = k - 1;
        lemma_scans_agree(input, from, to, a, b, n);
        // The next token of `a` begins at a byte that some token of `b` holds,
        // and none of the tokens that the two share reaches it.
        let s = a[n].loc.0 as int;
        lemma_token_bytes(input, a[n], s);
        assert(from <= s < to);
        let _at_s = input[s];
        let m = choose|m: int| 0 <= m < b.len() && (#[trigger] b[m]).loc.contains(s);
        if m < n {
            assert(a[m] == b[m]);
            assert(a[m].loc.1 <= a[n].loc.0);
        }
        assert(n < b.len());
        assert(b[n].loc.0 <= s) by {
            if n < m {
                assert(b[n].loc.1 <= b[m].loc.0);
            }
        }
        // And the other way round.
        let s2 = b[n].loc.0 as int;
        lemma_token_bytes(input, b[n], s2);
        assert(from <= s2 < to);
        let _at_s2 = input[s2];
        let m2 = choose|m2: int| 0 <= m2 < a.len() && (#[trigger] a[m2]).loc.contains(s2);
        if m2 < n {
            assert(a[m2] == b[m2]);
            assert(b[m2].loc.1 <= b[n].loc.0);
        }
        assert(s <= s2) by {
            if n < m2 {
                assert(a[n].loc.1 <= a[m2].loc.0);
            }
        }
        lemma_token_unique(input, a[n], b[n]);
    }
}

/// A range of bytes has one scan only.
pub proof fn lemma_tokenizes_unique(
    input: Seq<u8>,
    from: int,
    to: int,
    a: Seq<TokenView>,
    b: Seq<TokenView>,
)
    requires
        tokenizes(input, from, to, a),
        tokenizes(input, from, to, b),
    ensures
        a == b,
{
    lemma_scans_agree(input, from, to, a, b, a.len() as int);
    lemma_scans_agree(input, from, to, b, a, b.len() as int);
    assert(a =~= b);
}

/// Scanning is deterministic: two scans of the same input from the same
/// byte stop at the same byte and give the same outcome, the same tokens or
/// the same error.
pub proof fn lemma_scan_deterministic(
    input: Seq<u8>,
    from: int,
    stop_a: int,
    outcome_a: Result<Seq<TokenView>, LexError>,
    stop_b: int,
    outcome_b: Result<Seq<TokenView>, LexError>,
)
    requires
        is_outcome(input, from, stop_a, outcome_a),
        is_outcome(input, from, stop_b, outcome_b),
    ensures
        stop_a == stop_b,
        outcome_a == outcome_b,
{
    if stop_a < stop_b {
        assert(is_recognized(input[stop_a]));
    } else if stop_b < stop_a {
        assert(is_recognized(input[stop_b]));
    }
    if outcome_a is Ok {
        lemma_tokenizes_unique(
            input,
            from,
            stop_a,
            outcome_a->Ok_0,
            outcome_b->Ok_0,
        );
    }
}

/// Whitespace is transparent: whitespace in front of a range of bytes, or
/// behind it, adds no token to its scan and changes none.
pub proof fn lemma_whitespace_transparent(
    input: Seq<u8>,
    before: int,
    from: int,
    to: int,
    beyond: int,
    tokens: Seq<TokenView>,
    wider: Seq<TokenView>,
)
    requires
        0 <= before <= from,
        forall|i: int| before <= i < from ==> is_space(#[trigger] input[i]),
        tokenizes(input, from, to, tokens),
        to <= beyond <= input.len(),
        forall|i: int| to <= i < beyond ==> is_space(#[trigger] input[i]),
        tokenizes(input, before, beyond, wider),
    ensures
        wider == tokens,
{
    lemma_tokenizes_skip(input, from, to, tokens, beyond);
    assert(tokenizes(input, before, beyond, tokens));
    lemma_tokenizes_unique(input, before, beyond, wider, tokens);
}

/// Whitespace gives no token: the scan of a range that holds nothing but
/// whitespace is empty.
pub proof fn lemma_whitespace_gives_no_token(
    input: Seq<u8>,
    from: int,
    to: int,
    tokens: Seq<TokenView>,
)
    requires
        tokenizes(input, from, to, tokens),
        forall|i: int| from <= i < to ==> is_space(#[trigger] input[i]),
    ensures
        tokens == Seq::<TokenView>::empty(),
{
    assert(tokenizes(input, from, to, Seq::<TokenView>::empty()));
    lemma_tokenizes_unique(input, from, to, tokens, Seq::<TokenView>::empty());
}

/// Coverage: a scan accounts for every byte of its range exactly once. A
/// whitespace byte lies in no token, and any other byte lies in one token
/// and no second.
pub proof fn lemma_scan_tiles(input: Seq<u8>, from: int, to: int, tokens: Seq<TokenView>)
    requires
        tokenizes(input, from, to, tokens),
    ensures
        forall|i: int, k: int|
            from <= i < to && is_space(#[trigger] input[i]) && 0 <= k < tokens.len() ==> !(
            #[trigger] tokens[k]).loc.contains(i),
        forall|i: int|
            from <= i < to && !is_space(#[trigger] input[i]) ==> exists|k: int|
                0 <= k < tokens.len() && (#[trigger] tokens[k]).loc.contains(i),
        forall|i: int, j: int, k: int|
            0 <= j < tokens.len() && 0 <= k < tokens.len() && #[trigger] tokens[j].loc.contains(i)
                && #[trigger] tokens[k].loc.contains(i) ==> j == k,
{
    assert forall|i: int, k: int|
        from <= i < to && is_space(#[trigger] input[i]) && 0 <= k < tokens.len() implies !(
    #[trigger] tokens[k]).loc.contains(i) by {
        if tokens[k].loc.contains(i) {
            lemma_token_bytes(input, tokens[k], i);
        }
    }
    assert forall|i: int, j: int, k: int|
        0 <= j < tokens.len() && 0 <= k < tokens.len() && #[trigger] tokens[j].loc.contains(i)
            && #[trigger] tokens[k].loc.contains(i) implies j == k by {
        if j < k {
            assert(tokens[j].loc.1 <= tokens[k].loc.0);
        } else if k < j {
            assert(tokens[k].loc.1 <= tokens[j].loc.0);
        }
    }
}

/// A scan without its last token is the scan of the bytes in front of that
/// token, and the bytes behind that token are whitespace.
pub proof fn lemma_tokenizes_drop_last(input: Seq<u8>, from: int, to: int, tokens: Seq<TokenView>)
    requires
        tokenizes(input, from, to, tokens),
        tokens.len() > 0,
    ensures
        tokenizes(input, from, tokens.last().loc.0 as int, tokens.drop_last()),
        forall|i: int| tokens.last().loc.1 <= i < to ==> is_space(#[trigger] input[i]),
{
    let last = tokens.last();
    let n = tokens.len() - 1;
    let front = tokens.drop_last();
    assert forall|i: int| from <= i < last.loc.0 implies is_space(#[trigger] input[i]) || exists|
        k: int,
    |
        0 <= k < front.len() && (#[trigger] front[k]).loc.contains(i) by {
        if !is_space(input[i]) {
            let k = choose|k: int| 0 <= k < tokens.len() && (#[trigger] tokens[k]).loc.contains(i);
            assert(k < n);
            assert(front[k].loc.contains(i));
        }
    }
    assert forall|i: int| last.loc.1 <= i < to implies is_space(#[trigger] input[i]) by {
        if !is_space(input[i]) {
            let k = choose|k: int| 0 <= k < tokens.len() && (#[trigger] tokens[k]).loc.contains(i);
            if k < n {
                assert(tokens[k].loc.1 <= tokens[n].loc.0);
            }
        }
    }
}

/// Coverage, as a whole: the gaps and the texts of the tokens of a scan, put
/// together in their order, are the bytes of its range.
pub proof fn lemma_scan_reassembles(input: Seq<u8>, from: int, to: int, tokens: Seq<TokenView>)
    requires
        tokenizes(input, from, to, tokens),
    ensures
        laid_out(input, from, to, tokens) == input.subrange(from, to),
    decreases tokens.len(),
{
    if tokens.len() > 0 {
        let last = tokens.last();
        lemma_tokenizes_drop_last(input, from, to, tokens);
        lemma_scan_reassembles(input, from, last.loc.0 as int, tokens.drop_last());
        assert(input.subrange(from, last.loc.0 as int) + input.subrange(
            last.loc.0 as int,
            last.loc.1 as int,
        ) + input.subrange(last.loc.1 as int, to) =~= input.subrange(from, to));
    }
}

/// Maximal munch: where a token begins at the byte at which the one before
/// it ends, a number is not followed by a number, and a word is followed by
/// neither a word nor a number.
pub proof fn lemma_maximal_munch(
    input: Seq<u8>,
    from: int,
    to: int,
    tokens: Seq<TokenView>,
    k: int,
)
    requires
        tokenizes(input, from, to, tokens),
        0 <= k,
        k + 1 < tokens.len(),
        tokens[k].loc.1 == tokens[k + 1].loc.0,
    ensures
        tokens[k].value is Number ==> !(tokens[k + 1].value is Number),
        is_word(tokens[k].value) ==> !is_word(tokens[k + 1].value) && !(tokens[k + 1].value is Number),
{
    let first = tokens[k];
    let next = tokens[k + 1];
    assert(is_token(input, first));
    assert(is_token(input, next));
    let at_first = input[first.loc.0 as int];
    let at_next = input[next.loc.0 as int];
}

} // verus!
