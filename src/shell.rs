//! The shell's state and the step from a line of input to its pipelines.
use vstd::prelude::*;
use std::collections::HashMap;
use crate::error::{ShellError, is_parse_failure};
use crate::parser::ast::{Pipeline, pipelines_view};
use crate::parser::lexer::{Token, lex, lex_error_message};
use crate::parser::{parse, parse_tokens, syntax_error_message};

verus! {

/// State that lives as long as the shell: its environment variables.
#[derive(Debug)]
pub struct Shell {
    pub environment_var: HashMap<String, String>,
}

impl Shell {
    pub fn new() -> (r: Shell)
        ensures
            r.environment_var@ == Map::<String, String>::empty(),
    {
        Shell { environment_var: HashMap::new() }
    }

    /// Turns one line of input into its pipelines.
    pub fn parse_input(&mut self, input: &str) -> (r: Result<Vec<Pipeline>, ShellError>)
        ensures
            final(self).environment_var@ == old(self).environment_var@,
            match lex(input@) {
                Err(e) => r is Err && is_parse_failure(r->Err_0, lex_error_message(e)),
                Ok(ts) => match parse(ts) {
                    Ok(ps) => r is Ok && pipelines_view(r->Ok_0@) == ps,
                    Err(e) => r is Err && is_parse_failure(r->Err_0, syntax_error_message(e)),
                },
            },
    {
        let tokens = Token::tokenize(input)?;
        let pipelines = parse_tokens(tokens)?;
        Ok(pipelines)
    }
}

} // verus!
