//! Properties of the token stream as a whole.

use vstd::prelude::*;
use crate::chars::{
    byte_offset, is_white_space, lemma_byte_offset_mono, lemma_byte_offset_step,
    lemma_byte_offset_strict, utf8_len, utf8_width,
};
use crate::path_reader::lemma_run_len;
use crate::tokenizer::{
    key_chars, lemma_lex_step_progress, lex_from, lex_step, other_than, position_at, tokenize,
    white_space, PreloadedTokenizer, TokenError, TokenView,
};

verus! {

/// A token read from index `i` starts at the byte offset of index `i`.
pub proof fn lemma_token_starts_at_read_position(s: Seq<char>, i: int)
    ensures
        lex_step(s, i).0 matches Ok(t) ==> t.pos() == position_at(s, i),
{
}

/// Byte offsets of a well-sized input, as `usize`, keep their order.
proof fn lemma_position_strict(s: Seq<char>, i: int, j: int)
    requires
        0 <= i < j <= s.len(),
        utf8_len(s) <= usize::MAX,
    ensures
        position_at(s, i) < position_at(s, j),
        position_at(s, j) as int == byte_offset(s, j),
{
    lemma_byte_offset_strict(s, i, j);
    lemma_byte_offset_mono(s, j, s.len() as int);
}

proof fn lemma_position_mono(s: Seq<char>, i: int, j: int)
    requires
        0 <= i <= j <= s.len(),
        utf8_len(s) <= usize::MAX,
    ensures
        position_at(s, i) <= position_at(s, j),
{
    lemma_byte_offset_mono(s, i, j);
    lemma_byte_offset_mono(s, j, s.len() as int);
}

/// The tokens read from index `i` tile the input: the first starts at the
/// byte offset of `i`, each ends (where the next read starts) after it
/// starts, the next one starts where it ends, and the reading stops no
/// earlier than the end of the last token and no later than the end of the
/// input.
pub proof fn law_tokens_are_contiguous(s: Seq<char>, i: int)
    requires
        0 <= i <= s.len(),
        utf8_len(s) <= usize::MAX,
    ensures
        ({
            let (ts, _e, k) = lex_from(s, i);
            &&& i <= k <= s.len()
            &&& ts.len() > 0 ==> ts[0].1.pos() == position_at(s, i)
            &&& forall|m: int| 0 <= m < ts.len() ==> #[trigger] ts[m].1.pos() < ts[m].0
            &&& forall|m: int|
                0 <= m < ts.len() - 1 ==> #[trigger] ts[m].0 == ts[m + 1].1.pos()
            &&& ts.len() > 0 ==> ts[ts.len() - 1].0 <= position_at(s, k)
        }),
    decreases s.len() - i,
{
    lemma_lex_step_progress(s, i);
    let step = lex_step(s, i);
    if let Ok(t) = step.0 {
        let j = step.1;
        law_tokens_are_contiguous(s, j);
        lemma_position_strict(s, i, j);
        let rest = lex_from(s, j);
        let ts = lex_from(s, i).0;
        assert(ts == seq![(position_at(s, j), t)] + rest.0);
        assert forall|m: int| 0 <= m < ts.len() implies #[trigger] ts[m].1.pos() < ts[m].0 by {
            if m > 0 {
                assert(ts[m] == rest.0[m - 1]);
            }
        }
        assert forall|m: int| 0 <= m < ts.len() - 1 implies #[trigger] ts[m].0 == ts[m
            + 1].1.pos() by {
            if m > 0 {
                assert(ts[m] == rest.0[m - 1]);
                assert(ts[m + 1] == rest.0[m]);
            }
        }
        if rest.0.len() == 0 {
            lemma_position_mono(s, j, rest.2);
        }
    }
}

/// The whole token stream starts at offset 0 and tiles the input as above.
pub proof fn law_token_stream_tiles_input(s: Seq<char>)
    requires
        utf8_len(s) <= usize::MAX,
    ensures
        ({
            let (ts, _e, k) = tokenize(s);
            &&& 0 <= k <= s.len()
            &&& ts.len() > 0 ==> ts[0].1.pos() == 0
            &&& forall|m: int| 0 <= m < ts.len() ==> #[trigger] ts[m].1.pos() < ts[m].0
            &&& forall|m: int|
                0 <= m < ts.len() - 1 ==> #[trigger] ts[m].0 == ts[m + 1].1.pos()
        }),
{
    law_tokens_are_contiguous(s, 0);
    assert(s.take(0) =~= Seq::<char>::empty());
}

/// Reading at the end of the input gives `Eof` and stays at the end, and no
/// token follows.
pub proof fn law_end_of_input(s: Seq<char>)
    ensures
        lex_step(s, s.len() as int) == (Err::<TokenView, TokenError>(TokenError::Eof), s.len() as int),
        lex_from(s, s.len() as int).0.len() == 0,
        lex_from(s, s.len() as int).1 == TokenError::Eof,
{
}

/// A quoted text never holds its own quote character, and a key is never
/// empty and starts with the character read at its position.
pub proof fn law_token_text(s: Seq<char>, i: int)
    requires
        0 <= i < s.len(),
    ensures
        lex_step(s, i).0 matches Ok(TokenView::SingleQuoted(_, text)) ==> !text.contains('\''),
        lex_step(s, i).0 matches Ok(TokenView::DoubleQuoted(_, text)) ==> !text.contains('"'),
        lex_step(s, i).0 matches Ok(TokenView::Key(_, text)) ==> text.len() >= 1 && text[0]
            == s[i],
{
    lemma_run_len(s, i + 1, other_than(s[i]));
}

/// Two tokens have the same symbol (what `Token::to_simple` returns, and
/// what `Token::partial_eq` compares) exactly when they are of the same kind,
/// whatever their positions and texts.
pub proof fn law_symbol_names_kind(a: TokenView, b: TokenView)
    ensures
        (a.symbol() == b.symbol()) <==> (a.kind() == b.kind()),
{
    reveal_strlit("$");
    reveal_strlit(".");
    reveal_strlit("@");
    reveal_strlit("[");
    reveal_strlit("]");
    reveal_strlit("*");
    reveal_strlit("?");
    reveal_strlit(",");
    reveal_strlit(":");
    reveal_strlit("(");
    reveal_strlit(")");
    reveal_strlit("Key");
    reveal_strlit("\"");
    reveal_strlit("'");
    reveal_strlit("==");
    reveal_strlit(">=");
    reveal_strlit(">");
    reveal_strlit("<");
    reveal_strlit("<=");
    reveal_strlit("!=");
    reveal_strlit("&&");
    reveal_strlit("||");
    reveal_strlit(" ");
    if a.symbol() == b.symbol() {
        assert(a.symbol().len() == b.symbol().len());
        assert(a.symbol()[0] == b.symbol()[0]);
    }
}

/// One successful read from index `i` consumes exactly the token's spelling
/// (for white space: a run of white-space characters, all but the first
/// counted in bytes), and the next read starts at the byte offset just past
/// the token.
pub proof fn law_read_consumes_spelling(s: Seq<char>, i: int)
    requires
        0 <= i <= s.len(),
        utf8_len(s) <= usize::MAX,
    ensures
        ({
            let (r, j) = lex_step(s, i);
            r matches Ok(t) ==> {
                &&& !(t is Whitespace) ==> s.subrange(i, j) == t.spelling()
                &&& t matches TokenView::Whitespace(_, n) ==> {
                    &&& forall|k: int| i <= k < j ==> #[trigger] is_white_space(s[k])
                    &&& n == utf8_len(s.subrange(i + 1, j))
                }
                &&& t.ends_at(position_at(s, j))
            }
        }),
{
    lemma_lex_step_progress(s, i);
    if i < s.len() {
        let ch = s[i];
        let j = lex_step(s, i).1;
        lemma_run_len(s, i + 1, other_than(ch));
        lemma_run_len(s, i + 1, white_space());
        lemma_run_len(s, i + 1, key_chars());
        lemma_byte_offset_step(s, i);
        lemma_byte_offset_mono(s, i, j);
        lemma_byte_offset_mono(s, i + 1, j);
        lemma_byte_offset_mono(s, j, s.len() as int);
        lemma_byte_offset_mono(s, i, s.len() as int);
        if let Ok(t) = lex_step(s, i).0 {
            if t is Whitespace {
                let n = utf8_len(s.subrange(i + 1, j));
                assert(is_white_space(s[i]));
                assert forall|k: int| i <= k < j implies #[trigger] is_white_space(s[k]) by {
                    if k > i {
                        assert(white_space()(s[k]));
                    }
                }
                assert(is_white_space(s[i]) && position_at(s, j) == t.pos() + utf8_width(s[i])
                    + n);
            } else {
                if j == i + 1 {
                    assert(s.subrange(i, j) =~= seq![s[i]]);
                } else if j == i + 2 && (t is Equal || t is GreaterOrEqual || t is LittleOrEqual
                    || t is NotEqual || t is And || t is Or) {
                    assert(s.subrange(i, j) =~= seq![s[i], s[i + 1]]);
                } else if t is Key {
                    assert(s.subrange(i, j) =~= seq![s[i]] + s.subrange(i + 1, j));
                } else {
                    assert(s[j - 1] == ch);
                    assert(s.subrange(i, j) =~= seq![s[i]] + s.subrange(i + 1, j - 1) + seq![
                        s[j - 1],
                    ]);
                }
                assert(s.subrange(i, j) == t.spelling());
            }
        }
    }
}

/// A failed read gives `Eof` only once the input is used up; a
/// `Position(p)` names the start `p` of the malformed operator, whose single
/// one-byte character is consumed.
pub proof fn law_failed_read_position(s: Seq<char>, i: int)
    requires
        0 <= i <= s.len(),
        utf8_len(s) <= usize::MAX,
    ensures
        ({
            let (r, j) = lex_step(s, i);
            &&& r == Err::<TokenView, TokenError>(TokenError::Eof) ==> j == s.len()
            &&& r matches Err(TokenError::Position(p)) ==> {
                &&& j == i + 1
                &&& p == position_at(s, i)
                &&& position_at(s, j) == p + 1
            }
        }),
{
    lemma_lex_step_progress(s, i);
    if i < s.len() {
        lemma_run_len(s, i + 1, other_than(s[i]));
        lemma_byte_offset_step(s, i);
        lemma_byte_offset_mono(s, i + 1, s.len() as int);
    }
}

/// Every token of the stream read from index `i` ends just before the
/// offset paired with it, at which the next read starts.
pub proof fn law_stream_offsets_follow_spelling(s: Seq<char>, i: int)
    requires
        0 <= i <= s.len(),
        utf8_len(s) <= usize::MAX,
    ensures
        forall|m: int|
            0 <= m < lex_from(s, i).0.len() ==> (#[trigger] lex_from(s, i).0[m]).1.ends_at(
                lex_from(s, i).0[m].0,
            ),
    decreases s.len() - i,
{
    lemma_lex_step_progress(s, i);
    if let Ok(t) = lex_step(s, i).0 {
        let j = lex_step(s, i).1;
        law_read_consumes_spelling(s, i);
        law_stream_offsets_follow_spelling(s, j);
        let ts = lex_from(s, i).0;
        let rest = lex_from(s, j).0;
        assert(ts == seq![(position_at(s, j), t)] + rest);
        assert forall|m: int| 0 <= m < ts.len() implies (#[trigger] ts[m]).1.ends_at(ts[m].0) by {
            if m > 0 {
                assert(ts[m] == rest[m - 1]);
            }
        }
    }
}

/// Character index of the `n`-th read (counting from 0) of a tokenizer
/// started at the beginning of `s`.
pub open spec fn read_index(s: Seq<char>, n: nat) -> int
    decreases n,
{
    if n == 0 {
        0
    } else {
        lex_step(s, read_index(s, (n - 1) as nat)).1
    }
}

/// What the `n`-th read (counting from 0) of such a tokenizer gives.
pub open spec fn read_outcome(s: Seq<char>, n: nat) -> Result<TokenView, TokenError> {
    lex_step(s, read_index(s, n)).0
}

/// What the `n`-th `next_token` (counting from 0) of a preloaded tokenizer
/// with these pending tokens and this error gives.
pub open spec fn handed_out(pending: Seq<(usize, TokenView)>, err: TokenError, n: nat) -> Result<
    TokenView,
    TokenError,
> {
    if n < pending.len() {
        Ok(pending[n as int].1)
    } else {
        Err(err)
    }
}

proof fn lemma_reads_follow_stream(s: Seq<char>, n: nat)
    requires
        n <= tokenize(s).0.len(),
    ensures
        0 <= read_index(s, n) <= s.len(),
        lex_from(s, read_index(s, n)).0 == tokenize(s).0.skip(n as int),
        lex_from(s, read_index(s, n)).1 == tokenize(s).1,
    decreases n,
{
    if n == 0 {
        assert(tokenize(s).0.skip(0) =~= tokenize(s).0);
    } else {
        let m = (n - 1) as nat;
        lemma_reads_follow_stream(s, m);
        let i = read_index(s, m);
        lemma_lex_step_progress(s, i);
        let ts = tokenize(s).0;
        assert(ts.skip(m as int).len() > 0);
        assert(lex_step(s, i).0 is Ok);
        assert(ts.skip(n as int) =~= ts.skip(m as int).drop_first());
    }
}

/// A preloaded tokenizer hands out what a step-by-step tokenizer reads: the
/// `n`-th read, up to and including the first failed one, gives what the
/// `n`-th `next_token` of `PreloadedTokenizer::new` gives; every later
/// `next_token` repeats that first error; and the offset stored with the
/// `n`-th token is where the step-by-step tokenizer stands after `n + 1`
/// reads.
pub proof fn law_preloaded_replays_reads(s: Seq<char>, n: nat)
    ensures
        n <= tokenize(s).0.len() ==> read_outcome(s, n) == handed_out(
            tokenize(s).0,
            tokenize(s).1,
            n,
        ),
        n >= tokenize(s).0.len() ==> handed_out(tokenize(s).0, tokenize(s).1, n) == Err::<
            TokenView,
            TokenError,
        >(tokenize(s).1),
        n < tokenize(s).0.len() ==> tokenize(s).0[n as int].0 == position_at(
            s,
            read_index(s, n + 1),
        ),
{
    if n <= tokenize(s).0.len() {
        lemma_reads_follow_stream(s, n);
        let i = read_index(s, n);
        lemma_lex_step_progress(s, i);
        let ts = tokenize(s).0;
        if n < ts.len() {
            assert(ts.skip(n as int)[0] == ts[n as int]);
        } else {
            assert(ts.skip(n as int).len() == 0);
        }
    }
}

/// Handing out a token moves the rest forward by one; with nothing pending,
/// the error repeats. The next token of a preloaded tokenizer is the first
/// of what it hands out.
pub proof fn law_next_token_advances(p: PreloadedTokenizer, n: nat)
    ensures
        p.front() == handed_out(p.pending(), p.error(), 0),
        p.pending().len() > 0 ==> handed_out(p.pending().drop_first(), p.error(), n)
            == handed_out(p.pending(), p.error(), n + 1),
        p.pending().len() == 0 ==> handed_out(p.pending(), p.error(), n) == Err::<
            TokenView,
            TokenError,
        >(p.error()),
{
}

} // verus!
