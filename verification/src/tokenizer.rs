//! The tokenizer that splits a string into reverse-Polish tokens.
//!
//! The mathematical model splits the text into maximal runs of
//! non-whitespace characters ([`words`]) and gives each word its token
//! ([`word_token`]): a one-character word that is an operator symbol
//! becomes that operator, and a word of an optional minus sign followed
//! by decimal digits becomes the number it denotes, provided the value
//! fits in `i32`.  [`parse`] is the executable counterpart; its result
//! is pinned to [`spec_tokenize`] for every input.

use crate::expr::{Expr, ParseError};
use vstd::prelude::*;

verus! {

/// The five ASCII whitespace characters that separate words.
pub open spec fn is_space(c: char) -> bool {
    c == ' ' || c == '\t' || c == '\n' || c == '\u{000C}' || c == '\r'
}

/// The operator a single character denotes, if any.
pub open spec fn op_of_char(c: char) -> Option<Expr> {
    if c == '+' {
        Some(Expr::Add)
    } else if c == '-' {
        Some(Expr::Sub)
    } else if c == '*' {
        Some(Expr::Mul)
    } else if c == '/' {
        Some(Expr::Div)
    } else {
        None
    }
}

/// An ASCII decimal digit.
pub open spec fn is_digit(c: char) -> bool {
    48 <= c as u32 <= 57
}

/// The value of an ASCII decimal digit.
pub open spec fn digit_val(c: char) -> int {
    c as u32 - 48
}

/// Whether every character of `ds` is an ASCII decimal digit.
pub open spec fn all_digits(ds: Seq<char>) -> bool {
    forall|k: int| 0 <= k < ds.len() ==> is_digit(#[trigger] ds[k])
}

/// The value of a run of ASCII decimal digits, most significant first.
pub open spec fn digits_val(ds: Seq<char>) -> int
    decreases ds.len(),
{
    if ds.len() == 0 {
        0
    } else {
        digits_val(ds.drop_last()) * 10 + digit_val(ds.last())
    }
}

/// A signed decimal integer literal in `i32` range: an optional leading
/// minus sign followed by one or more ASCII digits.
pub open spec fn is_int_literal(w: Seq<char>) -> bool {
    if w.len() > 0 && w[0] == '-' {
        w.len() >= 2 && all_digits(w.drop_first()) && -digits_val(w.drop_first()) >= i32::MIN
    } else {
        w.len() >= 1 && all_digits(w) && digits_val(w) <= i32::MAX
    }
}

/// The value an integer literal denotes.
pub open spec fn literal_val(w: Seq<char>) -> int {
    if w.len() > 0 && w[0] == '-' {
        -digits_val(w.drop_first())
    } else {
        digits_val(w)
    }
}

/// The token a single word denotes, if any.
pub open spec fn word_token(w: Seq<char>) -> Option<Expr> {
    if w.len() == 1 && op_of_char(w[0]) is Some {
        op_of_char(w[0])
    } else if is_int_literal(w) {
        Some(Expr::Num(literal_val(w) as i32))
    } else {
        None
    }
}

/// The position after the maximal run of non-whitespace characters that
/// starts at `i`: the first position at or after `i` that is the end of
/// the text or holds whitespace.
pub open spec fn word_end(s: Seq<char>, i: int) -> int
    decreases s.len() - i,
    when 0 <= i <= s.len()
{
    if i == s.len() || is_space(s[i]) {
        i
    } else {
        word_end(s, i + 1)
    }
}

pub proof fn lemma_word_end(s: Seq<char>, i: int)
    requires
        0 <= i <= s.len(),
    ensures
        i <= word_end(s, i) <= s.len(),
        forall|k: int| i <= k < word_end(s, i) ==> !is_space(#[trigger] s[k]),
        word_end(s, i) == s.len() || is_space(s[word_end(s, i)]),
    decreases s.len() - i,
{
    if i == s.len() || is_space(s[i]) {
    } else {
        lemma_word_end(s, i + 1);
    }
}

/// The whitespace-separated words of `s` from position `i` on: runs of
/// whitespace are skipped, and each maximal run of other characters is
/// one word.
pub open spec fn words_from(s: Seq<char>, i: int) -> Seq<Seq<char>>
    decreases s.len() - i,
    when 0 <= i <= s.len()
    via words_from_decreases
{
    if i == s.len() {
        Seq::empty()
    } else if is_space(s[i]) {
        words_from(s, i + 1)
    } else {
        seq![s.subrange(i, word_end(s, i))] + words_from(s, word_end(s, i))
    }
}

#[via_fn]
proof fn words_from_decreases(s: Seq<char>, i: int) {
    if 0 <= i < s.len() && !is_space(s[i]) {
        lemma_word_end(s, i);
    }
}

/// The whitespace-separated words of `s`, in order.
pub open spec fn words(s: Seq<char>) -> Seq<Seq<char>> {
    words_from(s, 0)
}

/// The tokens of the given words, in order, or the first word that
/// denotes no token.
pub open spec fn tokens_of_words(ws: Seq<Seq<char>>) -> Result<Seq<Expr>, Seq<char>>
    decreases ws.len(),
{
    if ws.len() == 0 {
        Ok(Seq::empty())
    } else {
        match word_token(ws[0]) {
            None => Err(ws[0]),
            Some(t) => match tokens_of_words(ws.drop_first()) {
                Ok(rest) => Ok(seq![t] + rest),
                Err(w) => Err(w),
            },
        }
    }
}

/// What tokenizing yields: the token of every word of the text in
/// order, or the first word that is no token.
pub open spec fn spec_tokenize(s: Seq<char>) -> Result<Seq<Expr>, Seq<char>> {
    tokens_of_words(words(s))
}

/// The relation [`parse`] establishes between its input and its result.
pub open spec fn parse_result_matches(s: Seq<char>, r: Result<Vec<Expr>, ParseError>) -> bool {
    match r {
        Ok(toks) => spec_tokenize(s) == Ok::<Seq<Expr>, Seq<char>>(toks@),
        Err(e) => match e {
            ParseError::MalformedToken { word } => spec_tokenize(s) == Err::<Seq<Expr>, Seq<char>>(
                word@,
            ),
        },
    }
}

/// Tokenizing is a function of the text alone: two results for the same
/// text are structurally equal, down to the reported word on failure.
pub proof fn lemma_parse_deterministic(
    s: Seq<char>,
    r1: Result<Vec<Expr>, ParseError>,
    r2: Result<Vec<Expr>, ParseError>,
)
    requires
        parse_result_matches(s, r1),
        parse_result_matches(s, r2),
    ensures
        match (r1, r2) {
            (Ok(t1), Ok(t2)) => t1@ == t2@,
            (Err(e1), Err(e2)) => match (e1, e2) {
                (
                    ParseError::MalformedToken { word: w1 },
                    ParseError::MalformedToken { word: w2 },
                ) => w1@ == w2@,
            },
            _ => false,
        },
{
}

/// Nonnegative digit runs: the value of a run of digits is at least the
/// value of any of its prefixes, and never negative.
proof fn lemma_digits_val_take_le(ds: Seq<char>, j: int)
    requires
        all_digits(ds),
        0 <= j <= ds.len(),
    ensures
        0 <= digits_val(ds.take(j)) <= digits_val(ds),
    decreases ds.len() - j,
{
    if j == ds.len() {
        assert(ds.take(j) =~= ds);
        lemma_digits_val_nonneg(ds.take(j));
    } else {
        lemma_digits_val_take_le(ds, j + 1);
        assert(ds.take(j + 1).drop_last() =~= ds.take(j));
        assert(ds.take(j + 1).last() == ds[j]);
        lemma_digits_val_nonneg(ds.take(j));
    }
}

proof fn lemma_digits_val_nonneg(ds: Seq<char>)
    requires
        all_digits(ds),
    ensures
        digits_val(ds) >= 0,
    decreases ds.len(),
{
    if ds.len() > 0 {
        assert(all_digits(ds.drop_last())) by {
            assert(forall|k: int|
                0 <= k < ds.len() - 1 ==> #[trigger] ds.drop_last()[k] == ds[k]);
        }
        lemma_digits_val_nonneg(ds.drop_last());
    }
}

fn is_space_char(c: char) -> (b: bool)
    ensures
        b == is_space(c),
{
    c == ' ' || c == '\t' || c == '\n' || c == '\u{000C}' || c == '\r'
}

fn space_at(s: &str, j: usize) -> (b: bool)
    requires
        j < s@.len(),
    ensures
        b == is_space(s@[j as int]),
{
    is_space_char(s.get_char(j))
}

fn malformed(w: &str) -> (e: ParseError)
    ensures
        e matches ParseError::MalformedToken { word } && word@ == w@,
{
    ParseError::MalformedToken { word: w.to_owned() }
}

/// The token a single word denotes, or the word itself as the error.
fn token_of_word(w: &str) -> (r: Result<Expr, ParseError>)
    requires
        w@.len() >= 1,
    ensures
        match r {
            Ok(t) => word_token(w@) == Some(t),
            Err(e) => word_token(w@) is None && (e matches ParseError::MalformedToken { word }
                && word@ == w@),
        },
{
    let n = w.unicode_len();
    if n == 1 {
        let c = w.get_char(0);
        if c == '+' {
            return Ok(Expr::Add);
        }
        if c == '-' {
            return Ok(Expr::Sub);
        }
        if c == '*' {
            return Ok(Expr::Mul);
        }
        if c == '/' {
            return Ok(Expr::Div);
        }
    }
    let first = w.get_char(0);
    let neg = first == '-';
    let off: usize = if neg {
        1
    } else {
        0
    };
    assert(off < n);
    let ghost ds = if neg {
        w@.drop_first()
    } else {
        w@
    };
    proof {
        assert(ds =~= w@.subrange(off as int, n as int));
    }
    let mut m: u64 = 0;
    let mut k: usize = off;
    while k < n
        invariant
            n == w@.len(),
            off <= k <= n,
            off < n,
            ds == w@.subrange(off as int, n as int),
            all_digits(w@.subrange(off as int, k as int)),
            m == digits_val(w@.subrange(off as int, k as int)),
            m <= 0x8000_0000,
            neg <==> (w@[0] == '-' && off == 1),
            !neg ==> (w@[0] != '-' && off == 0),
            !(w@.len() == 1 && op_of_char(w@[0]) is Some),
        decreases n - k,
    {
        let c = w.get_char(k);
        let d = c as u32;
        if d < 48 || d > 57 {
            proof {
                assert(!is_digit(w@[k as int]));
                assert(ds[k - off] == w@[k as int]);
                assert(!all_digits(ds));
            }
            return Err(malformed(w));
        }
        proof {
            let pre = w@.subrange(off as int, k as int);
            let post = w@.subrange(off as int, k as int + 1);
            assert(post.drop_last() =~= pre);
            assert(post.last() == w@[k as int]);
        }
        m = m * 10 + ((d - 48) as u64);
        if m > 0x8000_0000 {
            proof {
                lemma_literal_out_of_range(w@, ds, off as int, k as int + 1, m as int);
            }
            return Err(malformed(w));
        }
        k = k + 1;
    }
    proof {
        assert(w@.subrange(off as int, n as int) =~= ds);
    }
    if neg {
        let v: i32 = if m == 0x8000_0000 {
            i32::MIN
        } else {
            -(m as i32)
        };
        proof {
            assert(is_int_literal(w@));
            assert(literal_val(w@) == -(m as int));
        }
        Ok(Expr::Num(v))
    } else {
        if m > 0x7FFF_FFFF {
            proof {
                assert(digits_val(w@) == m);
                assert(!is_int_literal(w@));
            }
            return Err(malformed(w));
        }
        proof {
            assert(is_int_literal(w@));
            assert(literal_val(w@) == m as int);
        }
        Ok(Expr::Num(m as i32))
    }
}

/// A digit run whose prefix already exceeds `i32` range denotes no
/// integer literal, whatever follows the prefix.
proof fn lemma_literal_out_of_range(w: Seq<char>, ds: Seq<char>, off: int, k: int, m: int)
    requires
        0 <= off <= 1,
        off < k <= w.len(),
        off == 1 ==> w[0] == '-',
        off == 0 ==> w.len() > 0 && w[0] != '-',
        ds == w.subrange(off, w.len() as int),
        m == digits_val(w.subrange(off, k)),
        m > 0x8000_0000,
    ensures
        !is_int_literal(w),
{
    if is_int_literal(w) {
        assert(all_digits(ds)) by {
            if off == 1 {
                assert(w.drop_first() =~= ds);
            } else {
                assert(w =~= ds);
            }
        }
        assert(w.subrange(off, k) =~= ds.take(k - off));
        lemma_digits_val_take_le(ds, k - off);
        if off == 1 {
            assert(w.drop_first() =~= ds);
            assert(-digits_val(ds) < i32::MIN);
        } else {
            assert(w =~= ds);
            assert(digits_val(ds) > i32::MAX);
        }
    }
}

/// Split `s` on runs of ASCII whitespace and turn each word into its
/// token, in order.  Exactly the inputs whose every word is an operator
/// symbol or an in-range integer literal are accepted; otherwise the
/// error names the first offending word.  Whitespace-only or empty input
/// yields the empty sequence.
pub fn parse(s: &str) -> (r: Result<Vec<Expr>, ParseError>)
    ensures
        parse_result_matches(s@, r),
{
    let n = s.unicode_len();
    let mut toks: Vec<Expr> = Vec::new();
    let mut i: usize = 0;
    proof {
        assert(toks@ + tokens_of_words(words_from(s@, 0))->Ok_0 =~= tokens_of_words(
            words_from(s@, 0),
        )->Ok_0);
    }
    while i < n
        invariant
            n == s@.len(),
            i <= n,
            match tokens_of_words(words_from(s@, i as int)) {
                Ok(rest) => spec_tokenize(s@) == Ok::<Seq<Expr>, Seq<char>>(toks@ + rest),
                Err(w) => spec_tokenize(s@) == Err::<Seq<Expr>, Seq<char>>(w),
            },
        decreases n - i,
    {
        if space_at(s, i) {
            i = i + 1;
        } else {
            let start = i;
            let mut j = i;
            while j < n && !space_at(s, j)
                invariant
                    n == s@.len(),
                    start <= j <= n,
                    word_end(s@, start as int) == word_end(s@, j as int),
                decreases n - j,
            {
                j = j + 1;
            }
            proof {
                assert(word_end(s@, j as int) == j);
                lemma_word_end(s@, start as int);
            }
            let w = s.substring_char(start, j);
            let ghost ws_rest = words_from(s@, j as int);
            proof {
                assert(words_from(s@, start as int) == seq![w@] + ws_rest);
                lemma_tokens_of_words_cons(w@, ws_rest);
            }
            match token_of_word(w) {
                Ok(t) => {
                    let ghost pre = toks@;
                    toks.push(t);
                    proof {
                        if tokens_of_words(ws_rest) is Ok {
                            let rest = tokens_of_words(ws_rest)->Ok_0;
                            assert(pre + (seq![t] + rest) =~= toks@ + rest);
                        }
                    }
                },
                Err(e) => {
                    return Err(e);
                },
            }
            i = j;
        }
    }
    proof {
        assert(words_from(s@, n as int) =~= Seq::<Seq<char>>::empty());
        assert(toks@ + Seq::<Expr>::empty() =~= toks@);
    }
    Ok(toks)
}

proof fn lemma_tokens_of_words_cons(w: Seq<char>, ws: Seq<Seq<char>>)
    ensures
        tokens_of_words(seq![w] + ws) == (match word_token(w) {
            None => Err::<Seq<Expr>, Seq<char>>(w),
            Some(t) => match tokens_of_words(ws) {
                Ok(rest) => Ok::<Seq<Expr>, Seq<char>>(seq![t] + rest),
                Err(x) => Err::<Seq<Expr>, Seq<char>>(x),
            },
        }),
{
    let all = seq![w] + ws;
    assert(all.len() == ws.len() + 1);
    assert(all[0] == w);
    assert(all.drop_first() =~= ws);
}

} // verus!
