//! From a line of text to pipelines of commands.
pub mod ast;
pub mod lexer;

use vstd::prelude::*;
use vstd::string::*;
use crate::error::{ShellError, is_parse_failure};
use crate::parser::ast::{
    Command, CommandView, Pipeline, Redirection, RedirectionView, commands_view, pipelines_view,
    redirections_view, strings_view,
};
use crate::parser::lexer::{
    Token, TokenView, all_white, is_word_source, lemma_lex_spaced_line, lex, spaced_line,
    tokens_view, words,
};

verus! {

/// Why a sequence of tokens does not form pipelines.
pub enum SyntaxError {
    /// A command position holds no word.
    UnexpectedEnd,
    /// `<` is not followed by a word.
    MissingInputFile,
    /// `>` is not followed by a word.
    MissingOutputFile,
}

pub open spec fn syntax_error_message(e: SyntaxError) -> Seq<char> {
    match e {
        SyntaxError::UnexpectedEnd => "Unexpected end of input"@,
        SyntaxError::MissingInputFile => "Expected file name after '<'"@,
        SyntaxError::MissingOutputFile => "Expected file name after '>'"@,
    }
}

/// The rest of a command whose program and earlier parts make up `cmd`: the
/// finished command and the tokens after it. `|`, `;` and `&` end a command
/// and stay for the caller.
pub open spec fn command_rest(ts: Seq<TokenView>, cmd: CommandView) -> Result<(CommandView, Seq<TokenView>), SyntaxError>
    decreases ts.len(),
{
    if ts.len() == 0 {
        Ok((cmd, ts))
    } else {
        match ts[0] {
            TokenView::Pipe | TokenView::Semicolon | TokenView::Background => Ok((cmd, ts)),
            TokenView::RedirectIn { fd: _ } => {
                if ts.len() > 1 && ts[1] is Word {
                    command_rest(ts.skip(2), CommandView { input: Some(ts[1]->Word_0), ..cmd })
                } else {
                    Err(SyntaxError::MissingInputFile)
                }
            },
            TokenView::RedirectOut { fd, append } => {
                if ts.len() > 1 && ts[1] is Word {
                    let r = RedirectionView { path: ts[1]->Word_0, fd, append };
                    command_rest(ts.skip(2), CommandView { outputs: cmd.outputs.push(r), ..cmd })
                } else {
                    Err(SyntaxError::MissingOutputFile)
                }
            },
            TokenView::Word(a) => command_rest(ts.skip(1), CommandView { arguments: cmd.arguments.push(a), ..cmd }),
        }
    }
}

/// One command at the front of `ts`: a word naming the program, then its
/// arguments and redirections.
pub open spec fn command_at(ts: Seq<TokenView>) -> Result<(CommandView, Seq<TokenView>), SyntaxError> {
    if ts.len() > 0 && ts[0] is Word {
        command_rest(ts.skip(1), CommandView {
            program: ts[0]->Word_0,
            arguments: seq![],
            input: None,
            outputs: seq![],
        })
    } else {
        Err(SyntaxError::UnexpectedEnd)
    }
}

pub proof fn lemma_command_rest_shrinks(ts: Seq<TokenView>, cmd: CommandView)
    ensures
        command_rest(ts, cmd) is Ok ==> command_rest(ts, cmd)->Ok_0.1.len() <= ts.len(),
    decreases ts.len(),
{
    if ts.len() > 0 {
        match ts[0] {
            TokenView::Pipe | TokenView::Semicolon | TokenView::Background => {},
            TokenView::RedirectIn { fd: _ } => {
                if ts.len() > 1 && ts[1] is Word {
                    lemma_command_rest_shrinks(ts.skip(2), CommandView { input: Some(ts[1]->Word_0), ..cmd });
                }
            },
            TokenView::RedirectOut { fd, append } => {
                if ts.len() > 1 && ts[1] is Word {
                    let r = RedirectionView { path: ts[1]->Word_0, fd, append };
                    lemma_command_rest_shrinks(ts.skip(2), CommandView { outputs: cmd.outputs.push(r), ..cmd });
                }
            },
            TokenView::Word(a) => {
                lemma_command_rest_shrinks(ts.skip(1), CommandView { arguments: cmd.arguments.push(a), ..cmd });
            },
        }
    }
}

/// A command takes at least its program's word.
pub proof fn lemma_command_at_shrinks(ts: Seq<TokenView>)
    ensures
        command_at(ts) is Ok ==> command_at(ts)->Ok_0.1.len() < ts.len(),
{
    if ts.len() > 0 && ts[0] is Word {
        lemma_command_rest_shrinks(ts.skip(1), CommandView {
            program: ts[0]->Word_0,
            arguments: seq![],
            input: None,
            outputs: seq![],
        });
    }
}

/// Further commands of a pipeline whose first ones are `cmds`, each after a `|`.
pub open spec fn pipeline_rest(ts: Seq<TokenView>, cmds: Seq<CommandView>) -> Result<(Seq<CommandView>, Seq<TokenView>), SyntaxError>
    decreases ts.len() via pipeline_rest_decreases
{
    if ts.len() > 0 && ts[0] is Pipe {
        match command_at(ts.skip(1)) {
            Ok((c, rest)) => pipeline_rest(rest, cmds.push(c)),
            Err(e) => Err(e),
        }
    } else {
        Ok((cmds, ts))
    }
}

#[via_fn]
proof fn pipeline_rest_decreases(ts: Seq<TokenView>, cmds: Seq<CommandView>) {
    if ts.len() > 0 {
        lemma_command_at_shrinks(ts.skip(1));
    }
}

/// One pipeline at the front of `ts`.
pub open spec fn pipeline_at(ts: Seq<TokenView>) -> Result<(Seq<CommandView>, Seq<TokenView>), SyntaxError> {
    match command_at(ts) {
        Ok((c, rest)) => pipeline_rest(rest, seq![c]),
        Err(e) => Err(e),
    }
}

pub proof fn lemma_pipeline_rest_shrinks(ts: Seq<TokenView>, cmds: Seq<CommandView>)
    ensures
        pipeline_rest(ts, cmds) is Ok ==> pipeline_rest(ts, cmds)->Ok_0.1.len() <= ts.len(),
    decreases ts.len(),
{
    if ts.len() > 0 && ts[0] is Pipe {
        lemma_command_at_shrinks(ts.skip(1));
        if let Ok((c, rest)) = command_at(ts.skip(1)) {
            lemma_pipeline_rest_shrinks(rest, cmds.push(c));
        }
    }
}

pub proof fn lemma_pipeline_at_shrinks(ts: Seq<TokenView>)
    ensures
        pipeline_at(ts) is Ok ==> pipeline_at(ts)->Ok_0.1.len() < ts.len(),
{
    lemma_command_at_shrinks(ts);
    if let Ok((c, rest)) = command_at(ts) {
        lemma_pipeline_rest_shrinks(rest, seq![c]);
    }
}

/// The pipelines of a token sequence, in order. `;` separates them, and `&`
/// after a pipeline is read and has no further effect.
pub open spec fn parse(ts: Seq<TokenView>) -> Result<Seq<Seq<CommandView>>, SyntaxError>
    decreases ts.len() via parse_decreases
{
    if ts.len() == 0 {
        Ok(seq![])
    } else if ts[0] is Semicolon || ts[0] is Background {
        parse(ts.skip(1))
    } else {
        match pipeline_at(ts) {
            Ok((p, rest)) => match parse(rest) {
                Ok(ps) => Ok(seq![p] + ps),
                Err(e) => Err(e),
            },
            Err(e) => Err(e),
        }
    }
}

#[via_fn]
proof fn parse_decreases(ts: Seq<TokenView>) {
    lemma_pipeline_at_shrinks(ts);
}

proof fn lemma_token_skip(tv: Seq<TokenView>, i: int)
    requires
        0 <= i < tv.len(),
    ensures
        tv.skip(i).len() == tv.len() - i,
        tv.skip(i)[0] == tv[i],
        tv.skip(i).skip(1) == tv.skip(i + 1),
        i + 1 < tv.len() ==> tv.skip(i)[1] == tv[i + 1],
        i + 1 < tv.len() ==> tv.skip(i).skip(2) == tv.skip(i + 2),
{
    assert(tv.skip(i).skip(1) =~= tv.skip(i + 1));
    if i + 1 < tv.len() {
        assert(tv.skip(i).skip(2) =~= tv.skip(i + 2));
    }
}

fn syntax_failure(e: SyntaxError) -> (r: ShellError)
    ensures
        is_parse_failure(r, syntax_error_message(e)),
{
    match e {
        SyntaxError::UnexpectedEnd => ShellError::ParseError(String::from_str("Unexpected end of input")),
        SyntaxError::MissingInputFile => ShellError::ParseError(String::from_str("Expected file name after '<'")),
        SyntaxError::MissingOutputFile => ShellError::ParseError(String::from_str("Expected file name after '>'")),
    }
}

/// Parses the command that starts at `tokens[start]`, returning it with the
/// index of the first token after it.
fn parse_command(tokens: &Vec<Token>, start: usize) -> (r: Result<(Command, usize), ShellError>)
    requires
        start <= tokens@.len(),
    ensures
        match command_at(tokens_view(tokens@).skip(start as int)) {
            Ok((c, rest)) => r is Ok && r->Ok_0.0@ == c && r->Ok_0.1 <= tokens@.len()
                && tokens_view(tokens@).skip(r->Ok_0.1 as int) == rest,
            Err(e) => r is Err && is_parse_failure(r->Err_0, syntax_error_message(e)),
        },
{
    let ghost tv = tokens_view(tokens@);
    let n = tokens.len();
    if start >= n {
        return Err(syntax_failure(SyntaxError::UnexpectedEnd));
    }
    proof { lemma_token_skip(tv, start as int); }
    let program = match &tokens[start] {
        Token::Word(s) => s.clone(),
        _ => {
            return Err(syntax_failure(SyntaxError::UnexpectedEnd));
        },
    };
    let mut arguments: Vec<String> = Vec::new();
    let mut input: Option<String> = None;
    let mut outputs: Vec<Redirection> = Vec::new();
    let mut i: usize = start + 1;
    let mut done = false;
    assert(strings_view(arguments@) =~= Seq::<Seq<char>>::empty());
    assert(redirections_view(outputs@) =~= Seq::<RedirectionView>::empty());
    while i < n && !done
        invariant
            tv == tokens_view(tokens@),
            n == tokens@.len(),
            start < i <= n,
            command_at(tv.skip(start as int)) == command_rest(
                tv.skip(i as int),
                (Command { program, arguments, input, outputs })@,
            ),
            done ==> command_rest(tv.skip(i as int), (Command { program, arguments, input, outputs })@)
                == Ok::<(CommandView, Seq<TokenView>), SyntaxError>(((Command { program, arguments, input, outputs })@, tv.skip(i as int))),
        decreases n - i + (if done { 0int } else { 1int }),
    {
        proof { lemma_token_skip(tv, i as int); }
        match &tokens[i] {
            Token::Pipe | Token::Semicolon | Token::Background => {
                done = true;
            },
            Token::RedirectIn { fd: _ } => {
                if i + 1 < n {
                    match &tokens[i + 1] {
                        Token::Word(f) => {
                            input = Some(f.clone());
                            i = i + 2;
                        },
                        _ => {
                            return Err(syntax_failure(SyntaxError::MissingInputFile));
                        },
                    }
                } else {
                    return Err(syntax_failure(SyntaxError::MissingInputFile));
                }
            },
            Token::RedirectOut { fd, append } => {
                if i + 1 < n {
                    match &tokens[i + 1] {
                        Token::Word(f) => {
                            let ghost before = redirections_view(outputs@);
                            let r = Redirection { path: f.clone(), fd: *fd, append: *append };
                            outputs.push(r);
                            assert(redirections_view(outputs@) =~= before.push(r@));
                            i = i + 2;
                        },
                        _ => {
                            return Err(syntax_failure(SyntaxError::MissingOutputFile));
                        },
                    }
                } else {
                    return Err(syntax_failure(SyntaxError::MissingOutputFile));
                }
            },
            Token::Word(a) => {
                let ghost before = strings_view(arguments@);
                arguments.push(a.clone());
                assert(strings_view(arguments@) =~= before.push(a@));
                i = i + 1;
            },
        }
    }
    proof {
        if i == n {
            assert(tv.skip(i as int) =~= Seq::<TokenView>::empty());
        }
    }
    Ok((Command { program, arguments, input, outputs }, i))
}

/// Parses the pipeline that starts at `tokens[start]`: commands joined by `|`.
fn parse_pipeline(tokens: &Vec<Token>, start: usize) -> (r: Result<(Pipeline, usize), ShellError>)
    requires
        start <= tokens@.len(),
    ensures
        match pipeline_at(tokens_view(tokens@).skip(start as int)) {
            Ok((p, rest)) => r is Ok && r->Ok_0.0@ == p && r->Ok_0.1 <= tokens@.len()
                && tokens_view(tokens@).skip(r->Ok_0.1 as int) == rest,
            Err(e) => r is Err && is_parse_failure(r->Err_0, syntax_error_message(e)),
        },
{
    let ghost tv = tokens_view(tokens@);
    let n = tokens.len();
    let mut commands: Vec<Command> = Vec::new();
    let (first, next) = parse_command(tokens, start)?;
    commands.push(first);
    assert(commands_view(commands@) =~= seq![first@]);
    let mut i: usize = next;
    let mut done = false;
    while i < n && !done
        invariant
            tv == tokens_view(tokens@),
            n == tokens@.len(),
            i <= n,
            pipeline_at(tv.skip(start as int)) == pipeline_rest(tv.skip(i as int), commands_view(commands@)),
            done ==> pipeline_rest(tv.skip(i as int), commands_view(commands@))
                == Ok::<(Seq<CommandView>, Seq<TokenView>), SyntaxError>((commands_view(commands@), tv.skip(i as int))),
        decreases n - i + (if done { 0int } else { 1int }),
    {
        proof {
            lemma_token_skip(tv, i as int);
            lemma_command_at_shrinks(tv.skip(i + 1));
        }
        if let Token::Pipe = &tokens[i] {
            let ghost before = commands_view(commands@);
            let (c, after) = parse_command(tokens, i + 1)?;
            commands.push(c);
            assert(commands_view(commands@) =~= before.push(c@));
            i = after;
        } else {
            done = true;
        }
    }
    proof {
        if i == n {
            assert(tv.skip(i as int) =~= Seq::<TokenView>::empty());
        }
    }
    Ok((Pipeline { commands }, i))
}

/// Parses a whole token sequence into its pipelines, in order.
pub fn parse_tokens(tokens: Vec<Token>) -> (r: Result<Vec<Pipeline>, ShellError>)
    ensures
        match parse(tokens_view(tokens@)) {
            Ok(ps) => r is Ok && pipelines_view(r->Ok_0@) == ps,
            Err(e) => r is Err && is_parse_failure(r->Err_0, syntax_error_message(e)),
        },
{
    let ghost tv = tokens_view(tokens@);
    let n = tokens.len();
    let mut pipelines: Vec<Pipeline> = Vec::new();
    let mut i: usize = 0;
    assert(tv.skip(0) =~= tv);
    while i < n
        invariant
            tv == tokens_view(tokens@),
            n == tokens@.len(),
            i <= n,
            parse(tv) == match parse(tv.skip(i as int)) {
                Ok(ps) => Ok(pipelines_view(pipelines@) + ps),
                Err(e) => Err(e),
            },
        decreases n - i,
    {
        proof {
            lemma_token_skip(tv, i as int);
            lemma_pipeline_at_shrinks(tv.skip(i as int));
        }
        match &tokens[i] {
            Token::Semicolon | Token::Background => {
                i = i + 1;
            },
            _ => {
                let ghost before = pipelines_view(pipelines@);
                let (p, next) = parse_pipeline(&tokens, i)?;
                pipelines.push(p);
                assert(pipelines_view(pipelines@) =~= before.push(p@));
                i = next;
                proof {
                    if let Ok(ps) = parse(tv.skip(i as int)) {
                        assert(before + (seq![p@] + ps) =~= before.push(p@) + ps);
                    }
                }
            },
        }
    }
    proof {
        assert(tv.skip(n as int) =~= Seq::<TokenView>::empty());
        assert(pipelines_view(pipelines@) + Seq::<Seq<CommandView>>::empty() =~= pipelines_view(pipelines@));
    }
    Ok(pipelines)
}

/// Plain words after a program all become its arguments, in order.
proof fn lemma_command_rest_words(vs: Seq<Seq<char>>, cmd: CommandView)
    ensures
        command_rest(words(vs), cmd) == Ok::<(CommandView, Seq<TokenView>), SyntaxError>(
            (CommandView { arguments: cmd.arguments + vs, ..cmd }, seq![]),
        ),
    decreases vs.len(),
{
    if vs.len() == 0 {
        assert(words(vs) =~= Seq::<TokenView>::empty());
        assert(cmd.arguments + vs =~= cmd.arguments);
    } else {
        let next = CommandView { arguments: cmd.arguments.push(vs[0]), ..cmd };
        assert(words(vs).skip(1) =~= words(vs.skip(1)));
        lemma_command_rest_words(vs.skip(1), next);
        assert(next.arguments + vs.skip(1) =~= cmd.arguments + vs);
    }
}

/// How much whitespace separates the words of a line does not matter: words
/// separated by whitespace runs of any lengths parse to one command whose
/// program is the first word's value and whose arguments are the other
/// words' values, in order.
pub proof fn law_spacing_is_immaterial(texts: Seq<Seq<char>>, values: Seq<Seq<char>>, gaps: Seq<Seq<char>>)
    requires
        texts.len() == values.len(),
        texts.len() > 0,
        gaps.len() == texts.len() + 1,
        forall|k: int| 0 <= k < texts.len() ==> is_word_source(#[trigger] texts[k], values[k]),
        forall|k: int| 0 <= k < gaps.len() ==> all_white(#[trigger] gaps[k]),
        forall|k: int| 0 < k < texts.len() ==> (#[trigger] gaps[k]).len() > 0,
    ensures
        lex(spaced_line(texts, gaps)) == Ok::<Seq<TokenView>, crate::parser::lexer::LexError>(words(values)),
        parse(words(values)) == Ok::<Seq<Seq<CommandView>>, SyntaxError>(seq![seq![CommandView {
            program: values[0],
            arguments: values.skip(1),
            input: None,
            outputs: seq![],
        }]]),
{
    let line = spaced_line(texts, gaps);
    lemma_lex_spaced_line(texts, values, gaps, seq![]);
    assert(line + Seq::<char>::empty() =~= line);
    assert(lex(Seq::<char>::empty()) == Ok::<Seq<TokenView>, crate::parser::lexer::LexError>(seq![]));
    assert(words(values) + Seq::<TokenView>::empty() =~= words(values));
    let ts = words(values);
    let first = CommandView { program: values[0], arguments: seq![], input: None, outputs: seq![] };
    let c = CommandView { program: values[0], arguments: values.skip(1), input: None, outputs: seq![] };
    assert(ts.skip(1) =~= words(values.skip(1)));
    lemma_command_rest_words(values.skip(1), first);
    assert(first.arguments + values.skip(1) =~= values.skip(1));
    assert(command_at(ts) == Ok::<(CommandView, Seq<TokenView>), SyntaxError>((c, seq![])));
    assert(pipeline_at(ts) == Ok::<(Seq<CommandView>, Seq<TokenView>), SyntaxError>((seq![c], seq![])));
    assert(parse(Seq::<TokenView>::empty()) == Ok::<Seq<Seq<CommandView>>, SyntaxError>(seq![]));
    assert(seq![seq![c]] + Seq::<Seq<CommandView>>::empty() =~= seq![seq![c]]);
}

} // verus!
