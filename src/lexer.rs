use vstd::prelude::*;
use vstd::string::{StrSliceExecFns, StringExecFns};
use crate::token::{CalcError, Tok, Token, toks};

verus! {

/// Whitespace: the characters of the Unicode White_Space property.
pub open spec fn is_space(c: char) -> bool {
    ('\u{9}' <= c && c <= '\u{D}') || c == '\u{20}' || c == '\u{85}' || c == '\u{A0}'
        || c == '\u{1680}' || ('\u{2000}' <= c && c <= '\u{200A}') || c == '\u{2028}'
        || c == '\u{2029}' || c == '\u{202F}' || c == '\u{205F}' || c == '\u{3000}'
}

fn space(c: char) -> (r: bool)
    ensures
        r == is_space(c),
{
    ('\u{9}' <= c && c <= '\u{D}') || c == '\u{20}' || c == '\u{85}' || c == '\u{A0}'
        || c == '\u{1680}' || ('\u{2000}' <= c && c <= '\u{200A}') || c == '\u{2028}'
        || c == '\u{2029}' || c == '\u{202F}' || c == '\u{205F}' || c == '\u{3000}'
}

pub open spec fn is_digit(c: char) -> bool {
    '0' <= c && c <= '9'
}

pub open spec fn is_numeral_char(c: char) -> bool {
    is_digit(c) || c == '.'
}

pub open spec fn count_dots(s: Seq<char>) -> nat
    decreases s.len(),
{
    if s.len() == 0 {
        0
    } else {
        count_dots(s.drop_last()) + if s.last() == '.' { 1nat } else { 0nat }
    }
}

pub open spec fn has_digit(s: Seq<char>) -> bool {
    exists|i: int| 0 <= i < s.len() && is_digit(#[trigger] s[i])
}

/// A run of digits and points reads as a number when it holds a digit and at
/// most one decimal point.
pub open spec fn valid_numeral(s: Seq<char>) -> bool {
    count_dots(s) <= 1 && has_digit(s)
}

/// Appends the pending numeral, if any, to the tokens.
pub open spec fn flush(t: Seq<Tok>, pending: Seq<char>) -> Seq<Tok> {
    if pending.len() == 0 {
        t
    } else {
        t.push(Tok::Num(pending))
    }
}

/// Tokens emitted and numeral pending after reading `s`: spaces are skipped,
/// digits and points extend the pending numeral, and any other character
/// ends it and stands as an operator of its own.
pub open spec fn scan(s: Seq<char>) -> (Seq<Tok>, Seq<char>)
    decreases s.len(),
{
    if s.len() == 0 {
        (Seq::empty(), Seq::empty())
    } else {
        let (t, p) = scan(s.drop_last());
        let c = s.last();
        if is_space(c) {
            (t, p)
        } else if is_numeral_char(c) {
            (t, p.push(c))
        } else {
            (flush(t, p).push(Tok::Op(c)), Seq::empty())
        }
    }
}

/// The token sequence of a line.
pub open spec fn lex(s: Seq<char>) -> Seq<Tok> {
    flush(scan(s).0, scan(s).1)
}

pub open spec fn numerals_valid(t: Seq<Tok>) -> bool {
    forall|i: int| 0 <= i < t.len() ==> (#[trigger] t[i] matches Tok::Num(n) ==> valid_numeral(n))
}

/// `n` is the first numeral of `t` that does not read as a number.
pub open spec fn first_bad_numeral(t: Seq<Tok>, n: Seq<char>) -> bool {
    exists|i: int|
        0 <= i < t.len() && #[trigger] t[i] == Tok::Num(n) && !valid_numeral(n)
            && numerals_valid(t.take(i))
}

fn check_numeral(s: &String) -> (r: bool)
    ensures
        r == valid_numeral(s@),
{
    let text = s.as_str();
    let n = text.unicode_len();
    let mut dots: usize = 0;
    let mut digit = false;
    let mut i: usize = 0;
    while i < n
        invariant
            n == s@.len(),
            text@ == s@,
            i <= n,
            dots == count_dots(s@.take(i as int)),
            dots <= 1,
            digit == has_digit(s@.take(i as int)),
        decreases n - i,
    {
        let c = text.get_char(i);
        assert(s@.take(i as int + 1).drop_last() == s@.take(i as int));
        if c == '.' {
            dots = dots + 1;
        }
        if '0' <= c && c <= '9' {
            digit = true;
        }
        i = i + 1;
        assert(digit == has_digit(s@.take(i as int))) by {
            let t = s@.take(i as int);
            if has_digit(t) {
                let k = choose|k: int| 0 <= k < t.len() && is_digit(#[trigger] t[k]);
                if k < i - 1 {
                    assert(s@.take(i - 1)[k] == t[k]);
                }
            }
            if has_digit(s@.take(i - 1)) {
                let k = choose|k: int| 0 <= k < i - 1 && is_digit(#[trigger] s@.take(i - 1)[k]);
                assert(t[k] == s@.take(i - 1)[k]);
            }
            if is_digit(c) {
                assert(t[i - 1] == c);
            }
        }
        if dots > 1 {
            proof {
                lemma_count_dots_grows(s@, i as int);
            }
            return false;
        }
    }
    assert(s@.take(n as int) == s@);
    dots <= 1 && digit
}

proof fn lemma_count_dots_grows(s: Seq<char>, i: int)
    requires
        0 <= i <= s.len(),
    ensures
        count_dots(s.take(i)) <= count_dots(s),
    decreases s.len() - i,
{
    if i < s.len() {
        lemma_count_dots_grows(s, i + 1);
        assert(s.take(i + 1).drop_last() == s.take(i));
    } else {
        assert(s.take(i) == s);
    }
}

/// `bad` holds the first numeral of `t` that does not read as a number, if any.
pub open spec fn tracks_bad(t: Seq<Tok>, bad: Option<String>) -> bool {
    match bad {
        None => numerals_valid(t),
        Some(b) => first_bad_numeral(t, b@),
    }
}

proof fn lemma_push_op(t: Seq<Tok>, bad: Option<String>, c: char)
    requires
        tracks_bad(t, bad),
    ensures
        tracks_bad(t.push(Tok::Op(c)), bad),
{
    let u = t.push(Tok::Op(c));
    match &bad {
        None => {
            assert forall|i: int| 0 <= i < u.len() implies (#[trigger] u[i] matches Tok::Num(n)
                ==> valid_numeral(n)) by {
                if i < t.len() {
                    assert(u[i] == t[i]);
                }
            }
        },
        Some(b) => {
            let i = choose|i: int|
                0 <= i < t.len() && #[trigger] t[i] == Tok::Num(b@) && !valid_numeral(b@)
                    && numerals_valid(t.take(i));
            assert(u[i] == t[i]);
            assert(u.take(i) == t.take(i));
        },
    }
}

fn flush_pending(tokens: &mut Vec<Token>, pending: String, bad: &mut Option<String>)
    requires
        tracks_bad(toks(old(tokens)@), *old(bad)),
    ensures
        toks(final(tokens)@) == flush(toks(old(tokens)@), pending@),
        tracks_bad(toks(final(tokens)@), *final(bad)),
{
    if pending.as_str().unicode_len() > 0 {
        let ghost t = toks(tokens@);
        let ok = check_numeral(&pending);
        if bad.is_none() && !ok {
            *bad = Some(pending.clone());
        }
        tokens.push(Token::Num(pending));
        let ghost u = toks(tokens@);
        assert(u == t.push(Tok::Num(pending@)));
        proof {
            match bad {
                None => {
                    assert forall|i: int| 0 <= i < u.len() implies (#[trigger] u[i] matches Tok::Num(n)
                        ==> valid_numeral(n)) by {
                        if i < t.len() {
                            assert(u[i] == t[i]);
                        }
                    }
                },
                Some(b) => {
                    if old(bad).is_none() {
                        assert(u.take(t.len() as int) == t);
                        assert(u[t.len() as int] == Tok::Num(b@));
                    } else {
                        let i = choose|i: int|
                            0 <= i < t.len() && #[trigger] t[i] == Tok::Num(b@) && !valid_numeral(b@)
                                && numerals_valid(t.take(i));
                        assert(u[i] == t[i]);
                        assert(u.take(i) == t.take(i));
                    }
                },
            }
        }
    }
}

/// Splits a line into tokens, left to right. Whitespace (every character
/// of the Unicode White_Space property) is skipped everywhere, also inside
/// a numeral; a maximal run of digits and points is
/// one numeral; every other character is an operator token.
pub fn tokenize(input: &str) -> (r: Result<Vec<Token>, CalcError>)
    ensures
        match r {
            Ok(v) => numerals_valid(lex(input@)) && toks(v@) == lex(input@),
            Err(CalcError::MalformedNumber(n)) => !numerals_valid(lex(input@))
                && first_bad_numeral(lex(input@), n@),
            Err(_) => false,
        },
{
    let n = input.unicode_len();
    let mut tokens: Vec<Token> = Vec::new();
    let mut pending = String::new();
    let mut bad: Option<String> = None;
    let mut i: usize = 0;
    while i < n
        invariant
            n == input@.len(),
            i <= n,
            toks(tokens@) == scan(input@.take(i as int)).0,
            pending@ == scan(input@.take(i as int)).1,
            tracks_bad(toks(tokens@), bad),
        decreases n - i,
    {
        let c = input.get_char(i);
        assert(input@.take(i as int + 1).drop_last() == input@.take(i as int));
        if space(c) {
        } else if ('0' <= c && c <= '9') || c == '.' {
            pending.append(input.substring_char(i, i + 1));
            assert(input@.subrange(i as int, i + 1) == seq![c]);
        } else {
            let done = pending;
            pending = String::new();
            flush_pending(&mut tokens, done, &mut bad);
            let ghost t = toks(tokens@);
            tokens.push(Token::Op(c));
            assert(toks(tokens@) == t.push(Tok::Op(c)));
            proof {
                lemma_push_op(t, bad, c);
            }
        }
        i = i + 1;
    }
    assert(input@.take(n as int) == input@);
    flush_pending(&mut tokens, pending, &mut bad);
    proof {
        if bad.is_none() {
            let t = lex(input@);
            if !numerals_valid(t) {
                let i = choose|i: int| 0 <= i < t.len() && !(#[trigger] t[i] matches Tok::Num(n)
                    ==> valid_numeral(n));
            }
        }
    }
    match bad {
        Some(b) => Err(CalcError::MalformedNumber(b)),
        None => Ok(tokens),
    }
}

} // verus!
