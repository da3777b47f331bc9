//! Lexical tokens: only spaces, tabs and line feeds are significant.
use vstd::prelude::*;
use vstd::string::StringSliceAdditionalSpecFns;

verus! {

/// One significant symbol of the source text.
#[derive(Copy, Clone, Debug, PartialEq, Eq, Structural)]
pub enum Token {
    Space,
    Tab,
    Newline,
}

/// The token a source byte stands for, if any.
pub open spec fn token_of_byte(b: u8) -> Option<Token> {
    if b == 32 {
        Some(Token::Space)
    } else if b == 9 {
        Some(Token::Tab)
    } else if b == 10 {
        Some(Token::Newline)
    } else {
        None
    }
}

/// The tokens of a byte sequence, in order; insignificant bytes produce nothing.
pub open spec fn tokens_of(s: Seq<u8>) -> Seq<Token>
    decreases s.len(),
{
    if s.len() == 0 {
        Seq::empty()
    } else {
        let prev = tokens_of(s.drop_last());
        match token_of_byte(s.last()) {
            Some(t) => prev.push(t),
            None => prev,
        }
    }
}

/// The number of line-feed tokens in a token sequence.
pub open spec fn newline_count(ts: Seq<Token>) -> nat
    decreases ts.len(),
{
    if ts.len() == 0 {
        0
    } else {
        newline_count(ts.drop_last()) + if ts.last() == Token::Newline {
            1nat
        } else {
            0nat
        }
    }
}

/// The tokens of a prefix of the source are a prefix of the source's tokens.
pub proof fn lemma_tokens_prefix(s: Seq<u8>, j: int)
    requires
        0 <= j <= s.len(),
    ensures
        tokens_of(s.take(j)).len() <= tokens_of(s).len(),
        tokens_of(s.take(j)) == tokens_of(s).take(tokens_of(s.take(j)).len() as int),
    decreases s.len() - j,
{
    if j < s.len() {
        lemma_tokens_prefix(s, j + 1);
        assert(s.take(j + 1).drop_last() == s.take(j));
        assert(s.take(j + 1).last() == s[j]);
        let a = tokens_of(s.take(j));
        let b = tokens_of(s.take(j + 1));
        let all = tokens_of(s);
        assert(a == b.take(a.len() as int));
        assert(a == all.take(a.len() as int));
    } else {
        assert(s.take(j) == s);
    }
}

/// Counting line feeds over a sequence extended by one token.
pub proof fn lemma_newline_count_push(ts: Seq<Token>, t: Token)
    ensures
        newline_count(ts.push(t)) == newline_count(ts) + if t == Token::Newline {
            1nat
        } else {
            0nat
        },
{
    assert(ts.push(t).drop_last() == ts);
}

/// A byte sequence has at most as many tokens as bytes.
pub proof fn lemma_tokens_len(s: Seq<u8>)
    ensures
        tokens_of(s).len() <= s.len(),
    decreases s.len(),
{
    if s.len() > 0 {
        lemma_tokens_len(s.drop_last());
    }
}

/// A token sequence has at most as many line feeds as tokens.
pub proof fn lemma_newline_count_len(ts: Seq<Token>)
    ensures
        newline_count(ts) <= ts.len(),
    decreases ts.len(),
{
    if ts.len() > 0 {
        lemma_newline_count_len(ts.drop_last());
    }
}

/// A lazy stream of the tokens of a source text.
pub struct Tokens {
    source: Vec<u8>,
    idx: usize,
    line_no: usize,
}

impl Tokens {
    /// Every token of the source.
    pub closed spec fn all(&self) -> Seq<Token> {
        tokens_of(self.source@)
    }

    /// The tokens handed out so far.
    pub closed spec fn fetched(&self) -> Seq<Token> {
        tokens_of(self.source@.take(self.idx as int))
    }

    /// The line counter: one more than the line feeds handed out so far.
    pub closed spec fn line(&self) -> usize {
        self.line_no
    }

    pub closed spec fn wf(&self) -> bool {
        &&& self.idx <= self.source@.len()
        &&& self.source@.len() < usize::MAX
        &&& self.line_no == 1 + newline_count(self.fetched())
        &&& self.fetched().len() <= self.all().len()
        &&& self.fetched() == self.all().take(self.fetched().len() as int)
    }

    /// What a well-formed stream implies about its counts.
    pub proof fn lemma_wf(&self)
        requires
            self.wf(),
        ensures
            self.all().len() < usize::MAX,
            self.fetched().len() <= self.all().len(),
            self.fetched() == self.all().take(self.fetched().len() as int),
            self.line() == 1 + newline_count(self.fetched()),
            newline_count(self.fetched()) <= self.fetched().len(),
    {
        lemma_tokens_len(self.source@);
        lemma_newline_count_len(self.fetched());
    }

    /// Starts a stream at the beginning of `source`, on line 1.
    pub fn new(source: &str) -> (r: Self)
        requires
            source.spec_bytes().len() < usize::MAX,
        ensures
            r.wf(),
            r.all() == tokens_of(source.spec_bytes()),
            r.fetched().len() == 0,
            r.line() == 1,
    {
        let bytes = source.as_bytes();
        let mut v: Vec<u8> = Vec::new();
        let mut i: usize = 0;
        while i < bytes.len()
            invariant
                i <= bytes@.len(),
                v@ == bytes@.take(i as int),
            decreases bytes@.len() - i,
        {
            v.push(bytes[i]);
            i = i + 1;
            assert(v@ == bytes@.take(i as int));
        }
        assert(bytes@.take(i as int) == bytes@);
        let r = Tokens { source: v, idx: 0, line_no: 1 };
        proof {
            assert(r.source@.take(0) =~= Seq::<u8>::empty());
            lemma_tokens_prefix(r.source@, 0);
        }
        r
    }

    /// The line that holds the next token to be read, counting from 1.
    pub fn line_no(&self) -> (r: usize)
        ensures
            r == self.line(),
    {
        self.line_no
    }

    /// Hands out the next token, or `None` once the source is exhausted.
    /// The line counter advances exactly when a line feed is handed out.
    pub fn next(&mut self) -> (r: Option<Token>)
        requires
            old(self).wf(),
        ensures
            final(self).wf(),
            final(self).all() == old(self).all(),
            old(self).fetched().len() < old(self).all().len() ==> {
                &&& r == Some(old(self).all()[old(self).fetched().len() as int])
                &&& final(self).fetched() == old(self).fetched().push(r.unwrap())
            },
            old(self).fetched().len() == old(self).all().len() ==> {
                &&& r.is_none()
                &&& final(self).fetched() == old(self).fetched()
            },
    {
        let ghost start = self.fetched();
        let ghost s = self.source@;
        loop
            invariant
                self.source@ == s,
                self.idx <= s.len(),
                self.line_no == old(self).line_no,
                tokens_of(s.take(self.idx as int)) == start,
                start == old(self).fetched(),
                old(self).wf(),
                s == old(self).source@,
            decreases s.len() - self.idx,
        {
            if self.idx >= self.source.len() {
                proof {
                    assert(s.take(self.idx as int) == s);
                }
                return None;
            }
            let b = self.source[self.idx];
            proof {
                assert(s.take(self.idx + 1).drop_last() == s.take(self.idx as int));
                assert(s.take(self.idx + 1).last() == b);
                lemma_tokens_prefix(s, self.idx + 1);
            }
            self.idx = self.idx + 1;
            proof {
                lemma_tokens_len(s.take(self.idx as int));
                lemma_newline_count_len(tokens_of(s.take(self.idx as int)));
            }
            if b == 32 {
                proof {
                    lemma_newline_count_push(start, Token::Space);
                }
                return Some(Token::Space);
            } else if b == 9 {
                proof {
                    lemma_newline_count_push(start, Token::Tab);
                }
                return Some(Token::Tab);
            } else if b == 10 {
                proof {
                    lemma_newline_count_push(start, Token::Newline);
                }
                self.line_no = self.line_no + 1;
                return Some(Token::Newline);
            }
        }
    }
}

} // verus!
