//! Splitting a line into words and operators, with quoting and escapes resolved.
use vstd::prelude::*;
use vstd::string::*;
use crate::error::{ShellError, is_parse_failure};
use crate::text::{white_space, is_space, push_char, char_vec};

verus! {

/// One lexical unit of a command line.
#[derive(Debug, Clone, PartialEq)]
pub enum Token {
    Word(String),
    Pipe,
    Semicolon,
    /// `>` (descriptor 1), `N>` (descriptor N); `>>` and `N>>` append.
    RedirectOut { fd: u32, append: bool },
    /// `<` (descriptor 0) or `N<`.
    RedirectIn { fd: u32 },
    Background,
}

/// The mathematical value of a token: a word is its characters.
pub enum TokenView {
    Word(Seq<char>),
    Pipe,
    Semicolon,
    RedirectOut { fd: u32, append: bool },
    RedirectIn { fd: u32 },
    Background,
}

impl View for Token {
    type V = TokenView;

    open spec fn view(&self) -> TokenView {
        match self {
            Token::Word(w) => TokenView::Word(w@),
            Token::Pipe => TokenView::Pipe,
            Token::Semicolon => TokenView::Semicolon,
            Token::RedirectOut { fd, append } => TokenView::RedirectOut { fd: *fd, append: *append },
            Token::RedirectIn { fd } => TokenView::RedirectIn { fd: *fd },
            Token::Background => TokenView::Background,
        }
    }
}

pub open spec fn tokens_view(ts: Seq<Token>) -> Seq<TokenView> {
    ts.map_values(|t: Token| t@)
}

/// Why a line cannot be split into tokens.
pub enum LexError {
    UnclosedSingle,
    UnclosedDouble,
}

pub open spec fn lex_error_message(e: LexError) -> Seq<char> {
    match e {
        LexError::UnclosedSingle => "Unclosed single quote"@,
        LexError::UnclosedDouble => "Unclosed double quote"@,
    }
}

pub open spec fn is_operator(c: char) -> bool {
    c == '|' || c == ';' || c == '>' || c == '<' || c == '&'
}

pub open spec fn is_digit(c: char) -> bool {
    '0' <= c && c <= '9'
}

pub open spec fn digit_value(c: char) -> nat {
    (c as u32 - '0' as u32) as nat
}

/// Number of decimal digits at the front of `s`.
pub open spec fn digit_run(s: Seq<char>) -> nat
    decreases s.len(),
{
    if s.len() > 0 && is_digit(s[0]) {
        1 + digit_run(s.skip(1))
    } else {
        0
    }
}

/// The number that the decimal digits `d` write.
pub open spec fn decimal_value(d: Seq<char>) -> nat
    decreases d.len(),
{
    if d.len() == 0 {
        0
    } else {
        decimal_value(d.drop_last()) * 10 + digit_value(d.last())
    }
}

/// The operator at the front of `s`, if any, and how many characters it spans.
/// A run of digits right before `>` or `<` names the descriptor, where its
/// value fits in `u32`; otherwise the digits belong to a word.
pub open spec fn operator_at(s: Seq<char>) -> Option<(TokenView, nat)> {
    let k = digit_run(s);
    if k > 0 && k < s.len() && (s[k as int] == '>' || s[k as int] == '<')
        && decimal_value(s.take(k as int)) <= u32::MAX {
        let fd = decimal_value(s.take(k as int)) as u32;
        if s[k as int] == '<' {
            Some((TokenView::RedirectIn { fd }, k + 1))
        } else if k + 1 < s.len() && s[k + 1int] == '>' {
            Some((TokenView::RedirectOut { fd, append: true }, k + 2))
        } else {
            Some((TokenView::RedirectOut { fd, append: false }, k + 1))
        }
    } else if s.len() == 0 {
        None
    } else if s[0] == '|' {
        Some((TokenView::Pipe, 1))
    } else if s[0] == ';' {
        Some((TokenView::Semicolon, 1))
    } else if s[0] == '&' {
        Some((TokenView::Background, 1))
    } else if s[0] == '<' {
        Some((TokenView::RedirectIn { fd: 0 }, 1))
    } else if s[0] == '>' {
        if s.len() > 1 && s[1] == '>' {
            Some((TokenView::RedirectOut { fd: 1, append: true }, 2))
        } else {
            Some((TokenView::RedirectOut { fd: 1, append: false }, 1))
        }
    } else {
        None
    }
}

/// Reads one word from the front of `s`, outside quotes, having collected
/// `acc` so far: the word's characters and what is left of `s` after it.
pub open spec fn scan_word(s: Seq<char>, acc: Seq<char>) -> Result<(Seq<char>, Seq<char>), LexError>
    decreases s.len(), 1nat,
{
    if s.len() == 0 {
        Ok((acc, s))
    } else {
        let c = s[0];
        if c == '\'' {
            scan_single(s.skip(1), acc)
        } else if c == '"' {
            scan_double(s.skip(1), acc)
        } else if white_space(c) || is_operator(c) {
            Ok((acc, s))
        } else if c == '\\' {
            if s.len() == 1 {
                Ok((acc, s.skip(1)))
            } else {
                scan_word(s.skip(2), acc.push(s[1]))
            }
        } else {
            scan_word(s.skip(1), acc.push(c))
        }
    }
}

/// Inside single quotes: every character is literal up to the closing quote.
pub open spec fn scan_single(s: Seq<char>, acc: Seq<char>) -> Result<(Seq<char>, Seq<char>), LexError>
    decreases s.len(), 0nat,
{
    if s.len() == 0 {
        Err(LexError::UnclosedSingle)
    } else if s[0] == '\'' {
        scan_word(s.skip(1), acc)
    } else {
        scan_single(s.skip(1), acc.push(s[0]))
    }
}

/// Inside double quotes: a backslash escapes `$`, `` ` ``, `"` and `\`,
/// joins lines before a line feed, and stays as it is before anything else.
pub open spec fn scan_double(s: Seq<char>, acc: Seq<char>) -> Result<(Seq<char>, Seq<char>), LexError>
    decreases s.len(), 0nat,
{
    if s.len() == 0 {
        Err(LexError::UnclosedDouble)
    } else if s[0] == '"' {
        scan_word(s.skip(1), acc)
    } else if s[0] == '\\' {
        if s.len() == 1 {
            Err(LexError::UnclosedDouble)
        } else {
            let e = s[1];
            if e == '$' || e == '`' || e == '"' || e == '\\' {
                scan_double(s.skip(2), acc.push(e))
            } else if e == '\n' {
                scan_double(s.skip(2), acc)
            } else {
                scan_double(s.skip(2), acc.push('\\').push(e))
            }
        }
    } else {
        scan_double(s.skip(1), acc.push(s[0]))
    }
}

/// What is left after a word never grows, and after a quoted span it shrinks.
pub proof fn lemma_scan_word_shrinks(s: Seq<char>, acc: Seq<char>)
    ensures
        scan_word(s, acc) is Ok ==> scan_word(s, acc)->Ok_0.1.len() <= s.len(),
    decreases s.len(), 1nat,
{
    if s.len() > 0 {
        let c = s[0];
        if c == '\'' {
            lemma_scan_single_shrinks(s.skip(1), acc);
        } else if c == '"' {
            lemma_scan_double_shrinks(s.skip(1), acc);
        } else if white_space(c) || is_operator(c) {
        } else if c == '\\' {
            if s.len() > 1 {
                lemma_scan_word_shrinks(s.skip(2), acc.push(s[1]));
            }
        } else {
            lemma_scan_word_shrinks(s.skip(1), acc.push(c));
        }
    }
}

pub proof fn lemma_scan_single_shrinks(s: Seq<char>, acc: Seq<char>)
    ensures
        scan_single(s, acc) is Ok ==> scan_single(s, acc)->Ok_0.1.len() < s.len(),
    decreases s.len(), 0nat,
{
    if s.len() > 0 {
        if s[0] == '\'' {
            lemma_scan_word_shrinks(s.skip(1), acc);
        } else {
            lemma_scan_single_shrinks(s.skip(1), acc.push(s[0]));
        }
    }
}

pub proof fn lemma_scan_double_shrinks(s: Seq<char>, acc: Seq<char>)
    ensures
        scan_double(s, acc) is Ok ==> scan_double(s, acc)->Ok_0.1.len() < s.len(),
    decreases s.len(), 0nat,
{
    if s.len() > 0 {
        if s[0] == '"' {
            lemma_scan_word_shrinks(s.skip(1), acc);
        } else if s[0] == '\\' {
            if s.len() > 1 {
                let e = s[1];
                if e == '$' || e == '`' || e == '"' || e == '\\' {
                    lemma_scan_double_shrinks(s.skip(2), acc.push(e));
                } else if e == '\n' {
                    lemma_scan_double_shrinks(s.skip(2), acc);
                } else {
                    lemma_scan_double_shrinks(s.skip(2), acc.push('\\').push(e));
                }
            }
        } else {
            lemma_scan_double_shrinks(s.skip(1), acc.push(s[0]));
        }
    }
}

/// Puts `t` in front of a successful result.
pub open spec fn prepend(t: TokenView, r: Result<Seq<TokenView>, LexError>) -> Result<Seq<TokenView>, LexError> {
    match r {
        Ok(ts) => Ok(seq![t] + ts),
        Err(e) => Err(e),
    }
}

/// The tokens of the line `s`: whitespace separates, operators stand alone,
/// and a word that comes out empty (`''`) yields no token.
pub open spec fn lex(s: Seq<char>) -> Result<Seq<TokenView>, LexError>
    decreases s.len() via lex_decreases
{
    if s.len() == 0 {
        Ok(seq![])
    } else if white_space(s[0]) {
        lex(s.skip(1))
    } else {
        match operator_at(s) {
            Some((t, n)) => prepend(t, lex(s.skip(n as int))),
            None => match scan_word(s, seq![]) {
                Err(e) => Err(e),
                Ok((w, rest)) => if w.len() == 0 {
                    lex(rest)
                } else {
                    prepend(TokenView::Word(w), lex(rest))
                },
            },
        }
    }
}

/// A word that starts with neither whitespace nor an operator takes at least one character.
pub proof fn lemma_word_progress(s: Seq<char>)
    requires
        s.len() > 0,
        !white_space(s[0]),
        operator_at(s) is None,
    ensures
        scan_word(s, seq![]) is Ok ==> scan_word(s, seq![])->Ok_0.1.len() < s.len(),
{
    let c = s[0];
    if c == '\'' {
        lemma_scan_single_shrinks(s.skip(1), seq![]);
    } else if c == '"' {
        lemma_scan_double_shrinks(s.skip(1), seq![]);
    } else if c == '\\' {
        if s.len() > 1 {
            lemma_scan_word_shrinks(s.skip(2), seq![].push(s[1]));
        }
    } else {
        lemma_scan_word_shrinks(s.skip(1), seq![].push(c));
    }
}

#[via_fn]
proof fn lex_decreases(s: Seq<char>) {
    if s.len() > 0 && !white_space(s[0]) && operator_at(s) is None {
        lemma_word_progress(s);
    }
}

pub open spec fn lex_glue(ts: Seq<TokenView>, r: Result<Seq<TokenView>, LexError>) -> Result<Seq<TokenView>, LexError> {
    match r {
        Ok(rest) => Ok(ts + rest),
        Err(e) => Err(e),
    }
}

proof fn lemma_skip_step(s: Seq<char>, i: int)
    requires
        0 <= i < s.len(),
    ensures
        s.skip(i).len() == s.len() - i,
        s.skip(i)[0] == s[i],
        s.skip(i).skip(1) == s.skip(i + 1),
        i + 1 < s.len() ==> s.skip(i)[1] == s[i + 1],
        i + 1 < s.len() ==> s.skip(i).skip(2) == s.skip(i + 2),
{
    assert(s.skip(i).skip(1) =~= s.skip(i + 1));
    if i + 1 < s.len() {
        assert(s.skip(i).skip(2) =~= s.skip(i + 2));
    }
}

impl Token {
    /// The operator that starts at `chars[i]`, with the index just past it.
    fn read_operator(chars: &Vec<char>, i: usize) -> (r: Option<(Token, usize)>)
        requires
            i < chars@.len(),
        ensures
            match operator_at(chars@.skip(i as int)) {
                Some((t, n)) => r is Some && r->Some_0.0@ == t && r->Some_0.1 == i + n,
                None => r is None,
            },
    {
        let ghost s = chars@;
        let n = chars.len();
        let mut j: usize = i;
        let mut v: u64 = 0;
        while j < n && '0' <= chars[j] && chars[j] <= '9'
            invariant
                s == chars@,
                n == s.len(),
                i <= j <= n,
                digit_run(s.skip(i as int)) == (j - i) + digit_run(s.skip(j as int)),
                v <= u32::MAX ==> v == decimal_value(s.subrange(i as int, j as int)),
                v > u32::MAX ==> decimal_value(s.subrange(i as int, j as int)) > u32::MAX,
                v <= 10 * (u32::MAX as u64) + 9,
            decreases n - j,
        {
            proof {
                lemma_skip_step(s, j as int);
                assert(s.subrange(i as int, j + 1).drop_last() =~= s.subrange(i as int, j as int));
            }
            if v <= u32::MAX as u64 {
                v = v * 10 + (chars[j] as u32 - '0' as u32) as u64;
            }
            j = j + 1;
        }
        proof {
            if j < n {
                lemma_skip_step(s, j as int);
            }
            assert(s.skip(i as int).take((j - i) as int) =~= s.subrange(i as int, j as int));
            lemma_skip_step(s, i as int);
        }
        if j > i && j < n && (chars[j] == '>' || chars[j] == '<') && v <= u32::MAX as u64 {
            let fd = v as u32;
            if chars[j] == '<' {
                return Some((Token::RedirectIn { fd }, j + 1));
            } else if j + 1 < n && chars[j + 1] == '>' {
                return Some((Token::RedirectOut { fd, append: true }, j + 2));
            } else {
                return Some((Token::RedirectOut { fd, append: false }, j + 1));
            }
        }
        let c = chars[i];
        if c == '|' {
            Some((Token::Pipe, i + 1))
        } else if c == ';' {
            Some((Token::Semicolon, i + 1))
        } else if c == '&' {
            Some((Token::Background, i + 1))
        } else if c == '<' {
            Some((Token::RedirectIn { fd: 0 }, i + 1))
        } else if c == '>' {
            if i + 1 < n && chars[i + 1] == '>' {
                Some((Token::RedirectOut { fd: 1, append: true }, i + 2))
            } else {
                Some((Token::RedirectOut { fd: 1, append: false }, i + 1))
            }
        } else {
            None
        }
    }

    /// Reads the word that starts at `chars[start]`, resolving quotes and
    /// escapes, and returns it with the index just past it.
    fn read_word(chars: &Vec<char>, start: usize) -> (r: Result<(String, usize), ShellError>)
        requires
            start <= chars@.len(),
        ensures
            match scan_word(chars@.skip(start as int), seq![]) {
                Ok((w, rest)) => r is Ok && r->Ok_0.0@ == w && r->Ok_0.1 <= chars@.len()
                    && chars@.skip(r->Ok_0.1 as int) == rest,
                Err(e) => r is Err && is_parse_failure(r->Err_0, lex_error_message(e)),
            },
    {
        let ghost s = chars@;
        let n = chars.len();
        let mut word = String::new();
        let mut i: usize = start;
        let mut at_end = false;
        while i < n && !at_end
            invariant
                s == chars@,
                n == s.len(),
                start <= i <= n,
                scan_word(s.skip(start as int), seq![]) == scan_word(s.skip(i as int), word@),
                at_end ==> scan_word(s.skip(i as int), word@) == Ok::<(Seq<char>, Seq<char>), LexError>((word@, s.skip(i as int))),
            decreases n - i + (if at_end { 0int } else { 1int }),
        {
            proof { lemma_skip_step(s, i as int); }
            let c = chars[i];
            let ghost i0 = i;
            if c == '\'' {
                i = i + 1;
                let mut found_closing = false;
                while i < n && !found_closing
                    invariant
                        s == chars@,
                        n == s.len(),
                        start < i <= n,
                        i0 < i,
                        !found_closing ==> scan_word(s.skip(start as int), seq![])
                            == scan_single(s.skip(i as int), word@),
                        found_closing ==> scan_word(s.skip(start as int), seq![])
                            == scan_word(s.skip(i as int), word@),
                    decreases n - i,
                {
                    proof { lemma_skip_step(s, i as int); }
                    let ch = chars[i];
                    i = i + 1;
                    if ch == '\'' {
                        found_closing = true;
                    } else {
                        push_char(&mut word, ch);
                    }
                }
                if !found_closing {
                    return Err(ShellError::ParseError(String::from_str("Unclosed single quote")));
                }
            } else if c == '"' {
                i = i + 1;
                let mut found_closing = false;
                while i < n && !found_closing
                    invariant
                        s == chars@,
                        n == s.len(),
                        start < i <= n,
                        i0 < i,
                        !found_closing ==> scan_word(s.skip(start as int), seq![])
                            == scan_double(s.skip(i as int), word@),
                        found_closing ==> scan_word(s.skip(start as int), seq![])
                            == scan_word(s.skip(i as int), word@),
                    decreases n - i,
                {
                    proof { lemma_skip_step(s, i as int); }
                    let ch = chars[i];
                    if ch == '"' {
                        found_closing = true;
                        i = i + 1;
                    } else if ch == '\\' {
                        if i + 1 < n {
                            let escaped = chars[i + 1];
                            if escaped == '$' || escaped == '`' || escaped == '"' || escaped == '\\' {
                                push_char(&mut word, escaped);
                            } else if escaped == '\n' {
                            } else {
                                push_char(&mut word, '\\');
                                push_char(&mut word, escaped);
                            }
                            i = i + 2;
                        } else {
                            i = i + 1;
                        }
                    } else {
                        push_char(&mut word, ch);
                        i = i + 1;
                    }
                }
                if !found_closing {
                    return Err(ShellError::ParseError(String::from_str("Unclosed double quote")));
                }
            } else if is_space(c) || c == '|' || c == ';' || c == '>' || c == '<' || c == '&' {
                at_end = true;
            } else if c == '\\' {
                if i + 1 < n {
                    push_char(&mut word, chars[i + 1]);
                    i = i + 2;
                } else {
                    i = i + 1;
                }
            } else {
                push_char(&mut word, c);
                i = i + 1;
            }
        }
        proof {
            if i == n {
                assert(s.skip(i as int) =~= Seq::<char>::empty());
            }
        }
        Ok((word, i))
    }

    /// Splits `input` into tokens. Fails with a parse error, and only then,
    /// where a quote is left open.
    pub fn tokenize(input: &str) -> (r: Result<Vec<Token>, ShellError>)
        ensures
            match lex(input@) {
                Ok(ts) => r is Ok && tokens_view(r->Ok_0@) == ts,
                Err(e) => r is Err && is_parse_failure(r->Err_0, lex_error_message(e)),
            },
    {
        let chars = char_vec(input);
        let ghost s = chars@;
        let n = chars.len();
        let mut tokens: Vec<Token> = Vec::new();
        let mut i: usize = 0;
        assert(s.skip(0) =~= s);
        while i < n
            invariant
                s == chars@,
                s == input@,
                n == s.len(),
                i <= n,
                lex(s) == lex_glue(tokens_view(tokens@), lex(s.skip(i as int))),
            decreases n - i,
        {
            proof { lemma_skip_step(s, i as int); }
            let ghost rest = s.skip(i as int);
            let ghost before = tokens_view(tokens@);
            if is_space(chars[i]) {
                i = i + 1;
            } else {
                match Token::read_operator(&chars, i) {
                    Some((t, next)) => {
                        proof {
                            assert(s.skip(next as int) =~= rest.skip(next - i));
                        }
                        tokens.push(t);
                        assert(tokens_view(tokens@) =~= before.push(t@));
                        i = next;
                        proof {
                            match lex(s.skip(i as int)) {
                                Ok(ts) => assert(before + (seq![t@] + ts) =~= before.push(t@) + ts),
                                Err(_) => {},
                            }
                        }
                    },
                    None => {
                        let (word, next) = Token::read_word(&chars, i)?;
                        proof { lemma_word_progress(rest); }
                        if word.unicode_len() > 0 {
                            let ghost w = word@;
                            tokens.push(Token::Word(word));
                            assert(tokens_view(tokens@) =~= before.push(TokenView::Word(w)));
                            proof {
                                match lex(s.skip(next as int)) {
                                    Ok(ts) => assert(before + (seq![TokenView::Word(w)] + ts)
                                        =~= before.push(TokenView::Word(w)) + ts),
                                    Err(_) => {},
                                }
                            }
                        }
                        i = next;
                    },
                }
            }
        }
        proof {
            assert(s.skip(n as int) =~= Seq::<char>::empty());
            assert(tokens_view(tokens@) + seq![] =~= tokens_view(tokens@));
        }
        Ok(tokens)
    }
}

/// Every character of `g` is whitespace.
pub open spec fn all_white(g: Seq<char>) -> bool {
    forall|j: int| 0 <= j < g.len() ==> white_space(#[trigger] g[j])
}

/// `t` is the source text of exactly one word, whose value is `v`: read on
/// its own and followed by a space, it gives `v` and stops at that space.
pub open spec fn is_word_source(t: Seq<char>, v: Seq<char>) -> bool {
    v.len() > 0 && scan_word(t + seq![' '], seq![]) == Ok::<(Seq<char>, Seq<char>), LexError>((v, seq![' ']))
}

/// The line `gaps[0] texts[0] gaps[1] ... texts[n-1] gaps[n]`.
pub open spec fn spaced_line(texts: Seq<Seq<char>>, gaps: Seq<Seq<char>>) -> Seq<char>
    decreases texts.len(),
{
    if gaps.len() == 0 {
        seq![]
    } else if texts.len() == 0 {
        gaps[0]
    } else {
        gaps[0] + texts[0] + spaced_line(texts.skip(1), gaps.skip(1))
    }
}

/// One word token for each value.
pub open spec fn words(vs: Seq<Seq<char>>) -> Seq<TokenView> {
    vs.map_values(|v: Seq<char>| TokenView::Word(v))
}

proof fn lemma_concat_skip(t: Seq<char>, x: Seq<char>, k: int)
    requires
        0 <= k <= t.len(),
    ensures
        (t + x).skip(k) == t.skip(k) + x,
        forall|j: int| 0 <= j < t.len() ==> (t + x)[j] == t[j],
{
    assert((t + x).skip(k) =~= t.skip(k) + x);
}

/// A word that stops at a space stops in the same place before any whitespace.
proof fn lemma_word_ends_at_space(t: Seq<char>, acc: Seq<char>, v: Seq<char>, r: Seq<char>)
    requires
        scan_word(t + seq![' '], acc) == Ok::<(Seq<char>, Seq<char>), LexError>((v, seq![' '])),
        r.len() == 0 || white_space(r[0]),
    ensures
        scan_word(t + r, acc) == Ok::<(Seq<char>, Seq<char>), LexError>((v, r)),
    decreases t.len(), 1nat,
{
    let sp = seq![' '];
    if t.len() == 0 {
        assert(t + sp =~= sp);
        assert(t + r =~= r);
    } else {
        lemma_concat_skip(t, sp, 1);
        lemma_concat_skip(t, r, 1);
        let c = t[0];
        if c == '\'' {
            lemma_single_ends_at_space(t.skip(1), acc, v, r);
        } else if c == '"' {
            lemma_double_ends_at_space(t.skip(1), acc, v, r);
        } else if white_space(c) || is_operator(c) {
            assert((t + sp).len() != sp.len());
        } else if c == '\\' {
            if t.len() == 1 {
                assert((t + sp).skip(2) =~= Seq::<char>::empty());
                assert(scan_word(Seq::<char>::empty(), acc.push(' ')) == Ok::<(Seq<char>, Seq<char>), LexError>((acc.push(' '), Seq::<char>::empty())));
                assert(sp.len() == 1);
            } else {
                lemma_concat_skip(t, sp, 2);
                lemma_concat_skip(t, r, 2);
                lemma_word_ends_at_space(t.skip(2), acc.push(t[1]), v, r);
            }
        } else {
            lemma_word_ends_at_space(t.skip(1), acc.push(c), v, r);
        }
    }
}

proof fn lemma_single_ends_at_space(t: Seq<char>, acc: Seq<char>, v: Seq<char>, r: Seq<char>)
    requires
        scan_single(t + seq![' '], acc) == Ok::<(Seq<char>, Seq<char>), LexError>((v, seq![' '])),
        r.len() == 0 || white_space(r[0]),
    ensures
        scan_single(t + r, acc) == Ok::<(Seq<char>, Seq<char>), LexError>((v, r)),
    decreases t.len(), 0nat,
{
    let sp = seq![' '];
    if t.len() == 0 {
        assert(t + sp =~= sp);
        assert(sp.skip(1) =~= Seq::<char>::empty());
        assert(scan_single(Seq::<char>::empty(), acc.push(' ')) is Err);
    } else {
        lemma_concat_skip(t, sp, 1);
        lemma_concat_skip(t, r, 1);
        if t[0] == '\'' {
            lemma_word_ends_at_space(t.skip(1), acc, v, r);
        } else {
            lemma_single_ends_at_space(t.skip(1), acc.push(t[0]), v, r);
        }
    }
}

proof fn lemma_double_ends_at_space(t: Seq<char>, acc: Seq<char>, v: Seq<char>, r: Seq<char>)
    requires
        scan_double(t + seq![' '], acc) == Ok::<(Seq<char>, Seq<char>), LexError>((v, seq![' '])),
        r.len() == 0 || white_space(r[0]),
    ensures
        scan_double(t + r, acc) == Ok::<(Seq<char>, Seq<char>), LexError>((v, r)),
    decreases t.len(), 0nat,
{
    let sp = seq![' '];
    if t.len() == 0 {
        assert(t + sp =~= sp);
        assert(sp.skip(1) =~= Seq::<char>::empty());
        assert(scan_double(Seq::<char>::empty(), acc.push(' ')) is Err);
    } else {
        lemma_concat_skip(t, sp, 1);
        lemma_concat_skip(t, r, 1);
        if t[0] == '"' {
            lemma_word_ends_at_space(t.skip(1), acc, v, r);
        } else if t[0] == '\\' {
            if t.len() == 1 {
                assert((t + sp).skip(2) =~= Seq::<char>::empty());
                assert(scan_double(Seq::<char>::empty(), acc.push('\\').push(' ')) is Err);
            } else {
                lemma_concat_skip(t, sp, 2);
                lemma_concat_skip(t, r, 2);
                let e = t[1];
                if e == '$' || e == '`' || e == '"' || e == '\\' {
                    lemma_double_ends_at_space(t.skip(2), acc.push(e), v, r);
                } else if e == '\n' {
                    lemma_double_ends_at_space(t.skip(2), acc, v, r);
                } else {
                    lemma_double_ends_at_space(t.skip(2), acc.push('\\').push(e), v, r);
                }
            }
        } else {
            lemma_double_ends_at_space(t.skip(1), acc.push(t[0]), v, r);
        }
    }
}

proof fn lemma_digit_run(s: Seq<char>)
    ensures
        digit_run(s) <= s.len(),
        forall|j: int| 0 <= j < digit_run(s) ==> is_digit(#[trigger] s[j]),
    decreases s.len(),
{
    if s.len() > 0 && is_digit(s[0]) {
        lemma_digit_run(s.skip(1));
        assert forall|j: int| 0 <= j < digit_run(s) implies is_digit(#[trigger] s[j]) by {
            if j > 0 {
                assert(s[j] == s.skip(1)[j - 1]);
            }
        }
    }
}

/// Reading a word across digits stops at the operator after them.
proof fn lemma_scan_stops_at_operator(s: Seq<char>, acc: Seq<char>, k: int)
    requires
        0 <= k < s.len(),
        forall|j: int| 0 <= j < k ==> is_digit(#[trigger] s[j]),
        is_operator(s[k]),
    ensures
        scan_word(s, acc) is Ok,
        scan_word(s, acc)->Ok_0.1.len() >= s.len() - k,
    decreases k,
{
    if k > 0 {
        assert(is_digit(s[0]));
        assert forall|j: int| 0 <= j < k - 1 implies is_digit(#[trigger] s.skip(1)[j]) by {
            assert(s.skip(1)[j] == s[j + 1]);
        }
        lemma_scan_stops_at_operator(s.skip(1), acc.push(s[0]), k - 1);
    }
}

/// The source of a word starts with neither whitespace nor an operator.
proof fn lemma_word_source_starts_word(t: Seq<char>, v: Seq<char>, r: Seq<char>)
    requires
        is_word_source(t, v),
        r.len() == 0 || white_space(r[0]),
    ensures
        t.len() > 0,
        !white_space((t + r)[0]),
        operator_at(t + r) is None,
{
    let sp = seq![' '];
    let s = t + r;
    if t.len() == 0 {
        assert(t + sp =~= sp);
    } else {
        lemma_concat_skip(t, sp, 0);
        lemma_concat_skip(t, r, 0);
        assert((t + sp).len() != sp.len());
        let k = digit_run(s) as int;
        lemma_digit_run(s);
        if k > 0 && k < s.len() && (s[k] == '>' || s[k] == '<') {
            if k > t.len() {
                assert(is_digit(s[t.len() as int]));
            }
            assert(k < t.len());
            assert forall|j: int| 0 <= j < k implies is_digit(#[trigger] (t + sp)[j]) by {
                assert(is_digit(s[j]));
            }
            lemma_scan_stops_at_operator(t + sp, seq![], k);
        }
    }
}

/// Whitespace in front of a line yields no token.
proof fn lemma_lex_skips_white(g: Seq<char>, x: Seq<char>)
    requires
        all_white(g),
    ensures
        lex(g + x) == lex(x),
    decreases g.len(),
{
    if g.len() == 0 {
        assert(g + x =~= x);
    } else {
        assert((g + x)[0] == g[0]);
        assert((g + x).skip(1) =~= g.skip(1) + x);
        lemma_lex_skips_white(g.skip(1), x);
    }
}

/// Words separated by whitespace lex to one word token each, whatever the
/// length of the whitespace between them; what follows the line is lexed on.
pub proof fn lemma_lex_spaced_line(texts: Seq<Seq<char>>, values: Seq<Seq<char>>, gaps: Seq<Seq<char>>, tail: Seq<char>)
    requires
        texts.len() == values.len(),
        gaps.len() == texts.len() + 1,
        forall|k: int| 0 <= k < texts.len() ==> is_word_source(#[trigger] texts[k], values[k]),
        forall|k: int| 0 <= k < gaps.len() ==> all_white(#[trigger] gaps[k]),
        forall|k: int| 0 < k < texts.len() ==> (#[trigger] gaps[k]).len() > 0,
        texts.len() == 0 || tail.len() == 0 || gaps[texts.len() as int].len() > 0,
    ensures
        lex(spaced_line(texts, gaps) + tail) == lex_glue(words(values), lex(tail)),
    decreases texts.len(),
{
    if texts.len() == 0 {
        lemma_lex_skips_white(gaps[0], tail);
        if let Ok(ts) = lex(tail) {
            assert(words(values) + ts =~= ts);
        }
    } else {
        let t = texts[0];
        let rest_line = spaced_line(texts.skip(1), gaps.skip(1));
        let r = rest_line + tail;
        assert(spaced_line(texts, gaps) + tail =~= gaps[0] + (t + r));
        lemma_lex_skips_white(gaps[0], t + r);
        assert(is_word_source(texts[0], values[0]));
        if texts.len() == 1 {
            assert(rest_line == gaps[1]);
        } else {
            assert(rest_line == gaps.skip(1)[0] + texts.skip(1)[0]
                + spaced_line(texts.skip(1).skip(1), gaps.skip(1).skip(1)));
            assert(gaps[1].len() > 0);
        }
        if r.len() > 0 {
            if gaps[1].len() > 0 {
                assert(all_white(gaps[1]));
                assert(r[0] == gaps[1][0]);
            } else {
                assert(rest_line =~= Seq::<char>::empty());
            }
        }
        lemma_word_source_starts_word(t, values[0], r);
        lemma_word_ends_at_space(t, seq![], values[0], r);
        assert(gaps.skip(1)[texts.skip(1).len() as int] == gaps[texts.len() as int]);
        assert forall|k: int| 0 <= k < texts.skip(1).len() implies is_word_source(#[trigger] texts.skip(1)[k], values.skip(1)[k]) by {
            assert(is_word_source(texts[k + 1], values[k + 1]));
        }
        assert forall|k: int| 0 <= k < gaps.skip(1).len() implies all_white(#[trigger] gaps.skip(1)[k]) by {
            assert(all_white(gaps[k + 1]));
        }
        assert forall|k: int| 0 < k < texts.skip(1).len() implies (#[trigger] gaps.skip(1)[k]).len() > 0 by {
            assert(gaps[k + 1].len() > 0);
        }
        lemma_lex_spaced_line(texts.skip(1), values.skip(1), gaps.skip(1), tail);
        assert(words(values) =~= seq![TokenView::Word(values[0])] + words(values.skip(1)));
        if let Ok(ts) = lex(tail) {
            assert(seq![TokenView::Word(values[0])] + (words(values.skip(1)) + ts) =~= words(values) + ts);
        }
    }
}

proof fn lemma_single_unclosed(s: Seq<char>, acc: Seq<char>)
    requires
        forall|j: int| 0 <= j < s.len() ==> s[j] != '\'',
    ensures
        scan_single(s, acc) == Err::<(Seq<char>, Seq<char>), LexError>(LexError::UnclosedSingle),
    decreases s.len(),
{
    if s.len() > 0 {
        assert(s[0] != '\'');
        assert forall|j: int| 0 <= j < s.skip(1).len() implies s.skip(1)[j] != '\'' by {
            assert(s.skip(1)[j] == s[j + 1]);
        }
        lemma_single_unclosed(s.skip(1), acc.push(s[0]));
    }
}

proof fn lemma_double_unclosed(s: Seq<char>, acc: Seq<char>)
    requires
        forall|j: int| 0 <= j < s.len() ==> s[j] != '"',
    ensures
        scan_double(s, acc) == Err::<(Seq<char>, Seq<char>), LexError>(LexError::UnclosedDouble),
    decreases s.len(),
{
    if s.len() > 0 {
        assert(s[0] != '"');
        if s[0] == '\\' && s.len() > 1 {
            assert forall|j: int| 0 <= j < s.skip(2).len() implies s.skip(2)[j] != '"' by {
                assert(s.skip(2)[j] == s[j + 2]);
            }
            let e = s[1];
            assert(e != '"');
            if e == '$' || e == '`' || e == '\\' {
                lemma_double_unclosed(s.skip(2), acc.push(e));
            } else if e == '\n' {
                lemma_double_unclosed(s.skip(2), acc);
            } else {
                lemma_double_unclosed(s.skip(2), acc.push('\\').push(e));
            }
        } else if s[0] != '\\' {
            assert forall|j: int| 0 <= j < s.skip(1).len() implies s.skip(1)[j] != '"' by {
                assert(s.skip(1)[j] == s[j + 1]);
            }
            lemma_double_unclosed(s.skip(1), acc.push(s[0]));
        }
    }
}

/// A quote that is never closed makes the whole line fail: after any words
/// and whitespace, a single quote with no single quote after it gives the
/// unclosed-single-quote error, and a double quote with no double quote after
/// it the unclosed-double-quote error.
pub proof fn law_unclosed_quote_fails(texts: Seq<Seq<char>>, values: Seq<Seq<char>>, gaps: Seq<Seq<char>>, rest: Seq<char>)
    requires
        texts.len() == values.len(),
        gaps.len() == texts.len() + 1,
        forall|k: int| 0 <= k < texts.len() ==> is_word_source(#[trigger] texts[k], values[k]),
        forall|k: int| 0 <= k < gaps.len() ==> all_white(#[trigger] gaps[k]),
        forall|k: int| 0 < k < texts.len() ==> (#[trigger] gaps[k]).len() > 0,
        texts.len() == 0 || gaps[texts.len() as int].len() > 0,
    ensures
        (forall|j: int| 0 <= j < rest.len() ==> rest[j] != '\'') ==> lex(
            spaced_line(texts, gaps) + seq!['\''] + rest,
        ) == Err::<Seq<TokenView>, LexError>(LexError::UnclosedSingle),
        (forall|j: int| 0 <= j < rest.len() ==> rest[j] != '"') ==> lex(
            spaced_line(texts, gaps) + seq!['"'] + rest,
        ) == Err::<Seq<TokenView>, LexError>(LexError::UnclosedDouble),
{
    let line = spaced_line(texts, gaps);
    let single = seq!['\''] + rest;
    let double = seq!['"'] + rest;
    assert(line + seq!['\''] + rest =~= line + single);
    assert(line + seq!['"'] + rest =~= line + double);
    lemma_lex_spaced_line(texts, values, gaps, single);
    lemma_lex_spaced_line(texts, values, gaps, double);
    assert(single.skip(1) =~= rest);
    assert(double.skip(1) =~= rest);
    assert(digit_run(single) == 0);
    assert(digit_run(double) == 0);
    if forall|j: int| 0 <= j < rest.len() ==> rest[j] != '\'' {
        lemma_single_unclosed(rest, seq![]);
    }
    if forall|j: int| 0 <= j < rest.len() ==> rest[j] != '"' {
        lemma_double_unclosed(rest, seq![]);
    }
}

} // verus!
