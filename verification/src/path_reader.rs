//! A cursor over the characters of a path expression that tracks the byte
//! offset of the next character.

use vstd::prelude::*;
use crate::chars::{byte_offset, len_utf8, lemma_byte_offset_mono, lemma_byte_offset_step, lemma_utf8_len_is_encoding_len, utf8_len};

verus! {

/// Errors of the reader.
#[derive(Debug, Clone, Copy, PartialEq, Eq, Structural)]
pub enum ReaderError {
    /// No character is left.
    Eof,
}

/// Length of the longest run of characters of `s`, starting at index `i`,
/// that all satisfy `p`.
pub open spec fn run_len(s: Seq<char>, i: int, p: spec_fn(char) -> bool) -> nat
    decreases s.len() - i,
{
    if 0 <= i < s.len() && p(s[i]) {
        1 + run_len(s, i + 1, p)
    } else {
        0
    }
}

/// The run that `run_len` measures ends within `s`, every character in it
/// satisfies `p`, and the one after it (if any) does not.
pub proof fn lemma_run_len(s: Seq<char>, i: int, p: spec_fn(char) -> bool)
    requires
        0 <= i <= s.len(),
    ensures
        i + run_len(s, i, p) <= s.len(),
        forall|k: int| i <= k < i + run_len(s, i, p) ==> #[trigger] p(s[k]),
        i + run_len(s, i, p) < s.len() ==> !p(s[i + run_len(s, i, p)]),
    decreases s.len() - i,
{
    if i < s.len() && p(s[i]) {
        lemma_run_len(s, i + 1, p);
    }
}

/// Appends `c` to `s` by calling std's `String::push`, which its
/// documentation describes as appending the given char to the end of the
/// string. That is all the contract claims; it is trusted, not proved.
#[verifier::external_body]
pub(crate) fn push_char(s: &mut String, c: char)
    ensures
        final(s)@ == old(s)@.push(c),
{
    s.push(c);
}

/// A cursor over `input`: `index` characters have been consumed, and `pos`
/// is the byte offset at which the next character starts.
pub struct PathReader {
    chars: Vec<char>,
    idx: usize,
    pos: usize,
}

impl PathReader {
    /// All characters of the input.
    pub closed spec fn input(&self) -> Seq<char> {
        self.chars@
    }

    /// Number of characters consumed so far.
    pub closed spec fn index(&self) -> int {
        self.idx as int
    }

    /// Internal consistency: the position is the byte offset of the index,
    /// and every byte offset of the input fits in a `usize`.
    pub closed spec fn wf(&self) -> bool {
        &&& self.idx <= self.chars@.len()
        &&& self.pos == byte_offset(self.chars@, self.idx as int)
        &&& utf8_len(self.chars@) <= usize::MAX
    }

    /// What a well-formed reader guarantees to its users.
    pub proof fn lemma_wf(&self)
        requires
            self.wf(),
        ensures
            0 <= self.index() <= self.input().len(),
            utf8_len(self.input()) <= usize::MAX,
    {
    }

    /// A reader at the start of `input`.
    pub fn new(input: &str) -> (r: PathReader)
        ensures
            r.wf(),
            r.input() == input@,
            r.index() == 0,
    {
        let n = input.as_bytes().len();
        proof {
            lemma_utf8_len_is_encoding_len(input@);
        }
        let mut chars: Vec<char> = Vec::new();
        for c in it: input.chars()
            invariant
                chars@ == it.seq().take(it.index() as int),
        {
            chars.push(c);
        }
        assert(chars@ == input@);
        assert(input@.take(0) =~= Seq::<char>::empty());
        PathReader { chars, idx: 0, pos: 0 }
    }

    /// The next character and the byte offset just after it, without
    /// consuming it.
    pub fn peek_char(&self) -> (r: Result<(usize, char), ReaderError>)
        requires
            self.wf(),
        ensures
            self.index() < self.input().len() ==> r == Ok::<(usize, char), ReaderError>(
                (
                    byte_offset(self.input(), self.index() + 1) as usize,
                    self.input()[self.index()],
                ),
            ),
            self.index() >= self.input().len() ==> r == Err::<(usize, char), ReaderError>(
                ReaderError::Eof,
            ),
    {
        if self.idx < self.chars.len() {
            let ch = self.chars[self.idx];
            proof {
                lemma_byte_offset_step(self.chars@, self.idx as int);
                lemma_byte_offset_mono(self.chars@, self.idx + 1, self.chars@.len() as int);
            }
            Ok((self.pos + len_utf8(ch), ch))
        } else {
            Err(ReaderError::Eof)
        }
    }

    /// Consumes the next character; gives it with the byte offset at which it
    /// starts.
    pub fn next_char(&mut self) -> (r: Result<(usize, char), ReaderError>)
        requires
            old(self).wf(),
        ensures
            final(self).wf(),
            final(self).input() == old(self).input(),
            old(self).index() < old(self).input().len() ==> {
                &&& r == Ok::<(usize, char), ReaderError>(
                    (
                        byte_offset(old(self).input(), old(self).index()) as usize,
                        old(self).input()[old(self).index()],
                    ),
                )
                &&& final(self).index() == old(self).index() + 1
            },
            old(self).index() >= old(self).input().len() ==> {
                &&& r == Err::<(usize, char), ReaderError>(ReaderError::Eof)
                &&& final(self).index() == old(self).index()
            },
    {
        if self.idx < self.chars.len() {
            let ch = self.chars[self.idx];
            let at = self.pos;
            proof {
                lemma_byte_offset_step(self.chars@, self.idx as int);
                lemma_byte_offset_mono(self.chars@, self.idx + 1, self.chars@.len() as int);
            }
            self.pos = self.pos + len_utf8(ch);
            self.idx = self.idx + 1;
            Ok((at, ch))
        } else {
            Err(ReaderError::Eof)
        }
    }

    /// Consumes the longest run of characters on which `fun` holds; gives the
    /// byte offset after the run and the run itself. `p` is what `fun`
    /// computes.
    pub fn take_while<F: Fn(&char) -> bool>(&mut self, fun: F, Ghost(p): Ghost<
        spec_fn(char) -> bool,
    >) -> (r: Result<(usize, String), ReaderError>)
        requires
            old(self).wf(),
            forall|c: char| call_requires(fun, (&c,)),
            forall|c: char, b: bool| call_ensures(fun, (&c,), b) ==> b == p(c),
        ensures
            final(self).wf(),
            final(self).input() == old(self).input(),
            final(self).index() == old(self).index() + run_len(
                old(self).input(),
                old(self).index(),
                p,
            ),
            r matches Ok((n, v)) && n == byte_offset(final(self).input(), final(self).index())
                && v@ == old(self).input().subrange(old(self).index(), final(self).index()),
    {
        let ghost s = self.chars@;
        let ghost start = self.idx as int;
        let mut i = self.idx;
        let mut pos = self.pos;
        let mut ret = String::new();
        proof {
            lemma_run_len(s, start, p);
        }
        while i < self.chars.len()
            invariant_except_break
                self.chars@ == s,
                start <= i <= s.len(),
                pos == byte_offset(s, i as int),
                utf8_len(s) <= usize::MAX,
                ret@ == s.subrange(start, i as int),
                forall|c: char| call_requires(fun, (&c,)),
                forall|c: char, b: bool| call_ensures(fun, (&c,), b) ==> b == p(c),
                i <= start + run_len(s, start, p),
                start + run_len(s, start, p) <= s.len(),
                forall|k: int| start <= k < start + run_len(s, start, p) ==> #[trigger] p(s[k]),
                start + run_len(s, start, p) < s.len() ==> !p(s[start + run_len(s, start, p)]),
            ensures
                self.chars@ == s,
                i == start + run_len(s, start, p),
                pos == byte_offset(s, i as int),
                utf8_len(s) <= usize::MAX,
                ret@ == s.subrange(start, i as int),
            decreases s.len() - i,
        {
            let c = self.chars[i];
            if !fun(&c) {
                break;
            }
            proof {
                lemma_byte_offset_step(s, i as int);
                lemma_byte_offset_mono(s, i + 1, s.len() as int);
            }
            pos = pos + len_utf8(c);
            push_char(&mut ret, c);
            assert(ret@ =~= s.subrange(start, i + 1));
            i = i + 1;
        }
        self.idx = i;
        self.pos = pos;
        Ok((pos, ret))
    }

    /// Byte offset of the next character.
    pub fn current_pos(&self) -> (r: usize)
        requires
            self.wf(),
        ensures
            r == byte_offset(self.input(), self.index()),
    {
        self.pos
    }
}

} // verus!
