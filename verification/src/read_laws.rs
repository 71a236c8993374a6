//! What one read gives, stated character by character: the one-character
//! tokens, the operators, keys, quoted texts and white space.

use vstd::prelude::*;
use crate::chars::is_white_space;
use crate::path_reader::lemma_run_len;
use crate::tokenizer::{
    key_chars, lex_step, other_than, position_at, white_space, TokenError, TokenView,
};

verus! {

/// Characters at which a key ends: those of the one-character tokens
/// `$ . * [ ] ( ) @ ? , :`, the operator characters `< > = & | !`, and white
/// space.
pub open spec fn ends_key(c: char) -> bool {
    ||| c == '$' || c == '.' || c == '*' || c == '[' || c == ']' || c == '(' || c == ')'
    ||| c == '@' || c == '?' || c == ',' || c == ':'
    ||| c == '<' || c == '>' || c == '=' || c == '&' || c == '|' || c == '!'
    ||| is_white_space(c)
}

/// Each of `$ . * [ ] ( ) @ ? , :` read at index `i` is a token of its own
/// at the byte offset of `i`, and the next read starts at `i + 1`.
pub proof fn law_symbol_read(s: Seq<char>, i: int)
    requires
        0 <= i < s.len(),
    ensures
        ({
            let p = position_at(s, i);
            let next = i + 1;
            &&& s[i] == '$' ==> lex_step(s, i) == (Ok::<TokenView, TokenError>(TokenView::Absolute(p)), next)
            &&& s[i] == '.' ==> lex_step(s, i) == (Ok::<TokenView, TokenError>(TokenView::Dot(p)), next)
            &&& s[i] == '*' ==> lex_step(s, i) == (Ok::<TokenView, TokenError>(TokenView::Asterisk(p)), next)
            &&& s[i] == '[' ==> lex_step(s, i) == (Ok::<TokenView, TokenError>(TokenView::OpenArray(p)), next)
            &&& s[i] == ']' ==> lex_step(s, i) == (Ok::<TokenView, TokenError>(TokenView::CloseArray(p)), next)
            &&& s[i] == '(' ==> lex_step(s, i) == (Ok::<TokenView, TokenError>(TokenView::OpenParenthesis(p)), next)
            &&& s[i] == ')' ==> lex_step(s, i) == (Ok::<TokenView, TokenError>(TokenView::CloseParenthesis(p)), next)
            &&& s[i] == '@' ==> lex_step(s, i) == (Ok::<TokenView, TokenError>(TokenView::At(p)), next)
            &&& s[i] == '?' ==> lex_step(s, i) == (Ok::<TokenView, TokenError>(TokenView::Question(p)), next)
            &&& s[i] == ',' ==> lex_step(s, i) == (Ok::<TokenView, TokenError>(TokenView::Comma(p)), next)
            &&& s[i] == ':' ==> lex_step(s, i) == (Ok::<TokenView, TokenError>(TokenView::Split(p)), next)
        }),
{
}

/// An operator character read at index `i` at the byte offset `p`:
/// - `<` and `>` followed by `=` give `<=` and `>=` over two characters;
///   followed by anything else they give `<` and `>` over one character;
/// - `=` and `!` followed by `=` give `==` and `!=`, `&` followed by `&` gives
///   `&&`, `|` followed by `|` gives `||`; followed by anything else they fail
///   with `Position(p)` having consumed the one character;
/// - at the end of the input each fails with `Eof`, the character consumed.
pub proof fn law_operator_read(s: Seq<char>, i: int)
    requires
        0 <= i < s.len(),
    ensures
        ({
            let p = position_at(s, i);
            let last = i + 1 == s.len();
            let eof = (Err::<TokenView, TokenError>(TokenError::Eof), i + 1);
            let bad = (Err::<TokenView, TokenError>(TokenError::Position(p)), i + 1);
            &&& s[i] == '<' ==> lex_step(s, i) == if last {
                eof
            } else if s[i + 1] == '=' {
                (Ok::<TokenView, TokenError>(TokenView::LittleOrEqual(p)), i + 2)
            } else {
                (Ok::<TokenView, TokenError>(TokenView::Little(p)), i + 1)
            }
            &&& s[i] == '>' ==> lex_step(s, i) == if last {
                eof
            } else if s[i + 1] == '=' {
                (Ok::<TokenView, TokenError>(TokenView::GreaterOrEqual(p)), i + 2)
            } else {
                (Ok::<TokenView, TokenError>(TokenView::Greater(p)), i + 1)
            }
            &&& s[i] == '=' ==> lex_step(s, i) == if last {
                eof
            } else if s[i + 1] == '=' {
                (Ok::<TokenView, TokenError>(TokenView::Equal(p)), i + 2)
            } else {
                bad
            }
            &&& s[i] == '!' ==> lex_step(s, i) == if last {
                eof
            } else if s[i + 1] == '=' {
                (Ok::<TokenView, TokenError>(TokenView::NotEqual(p)), i + 2)
            } else {
                bad
            }
            &&& s[i] == '&' ==> lex_step(s, i) == if last {
                eof
            } else if s[i + 1] == '&' {
                (Ok::<TokenView, TokenError>(TokenView::And(p)), i + 2)
            } else {
                bad
            }
            &&& s[i] == '|' ==> lex_step(s, i) == if last {
                eof
            } else if s[i + 1] == '|' {
                (Ok::<TokenView, TokenError>(TokenView::Or(p)), i + 2)
            } else {
                bad
            }
        }),
{
}

/// A `Position` error comes only from `=`, `!`, `&` or `|` that is followed
/// by a character other than its second one, and names its byte offset.
pub proof fn law_position_error_source(s: Seq<char>, i: int)
    requires
        0 <= i < s.len(),
    ensures
        lex_step(s, i).0 matches Err(TokenError::Position(q)) ==> {
            &&& q == position_at(s, i)
            &&& i + 1 < s.len()
            &&& (s[i] == '=' && s[i + 1] != '=') || (s[i] == '!' && s[i + 1] != '=') || (s[i]
                == '&' && s[i + 1] != '&') || (s[i] == '|' && s[i + 1] != '|')
        },
{
}

/// A key starts at a character that is neither a quote nor one at which keys
/// end; it runs over the longest stretch of characters at which keys do not
/// end, its text is exactly that stretch, and the next read starts at the
/// character that ends it (or at the end of the input).
pub proof fn law_key_read(s: Seq<char>, i: int)
    requires
        0 <= i < s.len(),
    ensures
        lex_step(s, i).0 is Ok && lex_step(s, i).0->Ok_0 is Key <==> (!ends_key(s[i]) && s[i]
            != '\'' && s[i] != '"'),
        !ends_key(s[i]) && s[i] != '\'' && s[i] != '"' ==> {
            let j = lex_step(s, i).1;
            &&& i < j <= s.len()
            &&& lex_step(s, i).0 == Ok::<TokenView, TokenError>(
                TokenView::Key(position_at(s, i), s.subrange(i, j)),
            )
            &&& forall|k: int| i <= k < j ==> !ends_key(#[trigger] s[k])
            &&& j == s.len() || ends_key(s[j])
        },
{
    lemma_run_len(s, i + 1, key_chars());
    let j = lex_step(s, i).1;
    if !ends_key(s[i]) && s[i] != '\'' && s[i] != '"' {
        assert(s.subrange(i, j) =~= seq![s[i]] + s.subrange(i + 1, j));
        assert forall|k: int| i <= k < j implies !ends_key(#[trigger] s[k]) by {
            if k > i {
                assert(key_chars()(s[k]));
            }
        }
    }
}

/// A quote read at index `i` opens a text that runs to the next equal quote:
/// the token holds the characters in between and the next read starts after
/// the closing quote; with no closing quote the read fails with `Eof` having
/// used up the input.
pub proof fn law_quoted_read(s: Seq<char>, i: int)
    requires
        0 <= i < s.len(),
        s[i] == '\'' || s[i] == '"',
    ensures
        ({
            let (r, j) = lex_step(s, i);
            let q = s[i];
            let p = position_at(s, i);
            ||| {
                &&& r == Err::<TokenView, TokenError>(TokenError::Eof)
                &&& j == s.len()
                &&& forall|k: int| i < k < s.len() ==> #[trigger] s[k] != q
            }
            ||| {
                &&& i + 1 < j <= s.len()
                &&& s[j - 1] == q
                &&& forall|k: int| i < k < j - 1 ==> #[trigger] s[k] != q
                &&& r == if q == '\'' {
                    Ok::<TokenView, TokenError>(TokenView::SingleQuoted(p, s.subrange(i + 1, j - 1)))
                } else {
                    Ok::<TokenView, TokenError>(TokenView::DoubleQuoted(p, s.subrange(i + 1, j - 1)))
                }
            }
        }),
{
    let q = s[i];
    lemma_run_len(s, i + 1, other_than(q));
    assert forall|k: int| i < k < i + 1 + crate::path_reader::run_len(s, i + 1, other_than(q))
        implies #[trigger] s[k] != q by {
        assert(other_than(q)(s[k]));
    }
}

/// White space read at index `i` runs over the longest stretch of
/// white-space characters; the token counts the bytes of all but the first,
/// and the next read starts after the stretch.
pub proof fn law_whitespace_read(s: Seq<char>, i: int)
    requires
        0 <= i < s.len(),
        is_white_space(s[i]),
    ensures
        ({
            let (r, j) = lex_step(s, i);
            &&& i < j <= s.len()
            &&& forall|k: int| i <= k < j ==> is_white_space(#[trigger] s[k])
            &&& j == s.len() || !is_white_space(s[j])
            &&& r == Ok::<TokenView, TokenError>(
                TokenView::Whitespace(
                    position_at(s, i),
                    crate::chars::utf8_len(s.subrange(i + 1, j)) as usize,
                ),
            )
        }),
{
    lemma_run_len(s, i + 1, white_space());
    let j = lex_step(s, i).1;
    assert forall|k: int| i <= k < j implies is_white_space(#[trigger] s[k]) by {
        if k > i {
            assert(white_space()(s[k]));
        }
    }
}

} // verus!
