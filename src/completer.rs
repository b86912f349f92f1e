//! Completing the command name at the start of a line.
use vstd::prelude::*;
use vstd::string::*;
use crate::parser::ast::strings_view;
use crate::text::{contains_char, is_prefix, is_space, starts_with, white_space};

verus! {

/// One offer: the text shown in a list and the text put in the line.
#[derive(Debug, Clone)]
pub struct Completion {
    pub display: String,
    pub replacement: String,
}

/// What completing to `cmd` puts in the line: the name and a space, the name
/// in single quotes where it holds a space.
pub open spec fn completion_text(cmd: Seq<char>) -> Seq<char> {
    if cmd.contains(' ') {
        seq!['\''] + cmd + seq!['\'', ' ']
    } else {
        cmd + seq![' ']
    }
}

/// The names among `cmds` that begin with `word`, in order.
pub open spec fn names_starting(word: Seq<char>, cmds: Seq<Seq<char>>) -> Seq<Seq<char>>
    decreases cmds.len(),
{
    if cmds.len() == 0 {
        seq![]
    } else if is_prefix(word, cmds.last()) {
        names_starting(word, cmds.drop_last()).push(cmds.last())
    } else {
        names_starting(word, cmds.drop_last())
    }
}

/// The names that complete the text `before` the cursor: those that begin
/// with it, where it is a first word not yet ended; none otherwise.
pub open spec fn completed_names(before: Seq<char>, cmds: Seq<Seq<char>>) -> Seq<Seq<char>> {
    if before.len() > 0 && (forall|j: int| 0 <= j < before.len() ==> !white_space(#[trigger] before[j])) {
        names_starting(before, cmds)
    } else {
        seq![]
    }
}

/// The command names that complete the text `before` the cursor; the word
/// completed starts at the line's start. Empty where the cursor is not in a
/// first word, or no name fits.
pub fn command_completions(before: &str, commands: &Vec<String>) -> (r: Vec<Completion>)
    ensures
        r@.len() == completed_names(before@, strings_view(commands@)).len(),
        forall|i: int| 0 <= i < r@.len() ==> {
            let name = #[trigger] completed_names(before@, strings_view(commands@))[i];
            r@[i].display@ == name && r@[i].replacement@ == completion_text(name)
        },
{
    let ghost names = strings_view(commands@);
    let mut out: Vec<Completion> = Vec::new();
    let n = before.unicode_len();
    if n == 0 {
        return out;
    }
    let mut j: usize = 0;
    while j < n
        invariant
            n == before@.len(),
            names == strings_view(commands@),
            out@.len() == 0,
            j <= n,
            forall|k: int| 0 <= k < j ==> !white_space(#[trigger] before@[k]),
        decreases n - j,
    {
        if is_space(before.get_char(j)) {
            assert(white_space(before@[j as int]));
            assert(completed_names(before@, names) =~= Seq::<Seq<char>>::empty());
            return out;
        }
        j = j + 1;
    }
    let mut i: usize = 0;
    assert(names.take(0) =~= Seq::<Seq<char>>::empty());
    while i < commands.len()
        invariant
            names == strings_view(commands@),
            i <= commands@.len(),
            out@.len() == names_starting(before@, names.take(i as int)).len(),
            forall|k: int| 0 <= k < out@.len() ==> {
                let name = #[trigger] names_starting(before@, names.take(i as int))[k];
                out@[k].display@ == name && out@[k].replacement@ == completion_text(name)
            },
        decreases commands@.len() - i,
    {
        let ghost prev = names_starting(before@, names.take(i as int));
        assert(names.take(i + 1).drop_last() =~= names.take(i as int));
        assert(names.take(i + 1).last() == commands@[i as int]@);
        let cmd = commands[i].as_str();
        if starts_with(cmd, before) {
            let replacement = if contains_char(cmd, ' ') {
                String::from_str("'").concat(cmd).concat("' ")
            } else {
                String::from_str(cmd).concat(" ")
            };
            proof {
                reveal_strlit("'");
                reveal_strlit("' ");
                reveal_strlit(" ");
                assert(seq!['\''] + cmd@ + seq!['\'', ' '] =~= "'"@ + cmd@ + "' "@);
                assert(cmd@ + seq![' '] =~= cmd@ + " "@);
            }
            out.push(Completion { display: String::from_str(cmd), replacement });
            assert(names_starting(before@, names.take(i + 1)) == prev.push(cmd@));
        }
        i = i + 1;
    }
    assert(names.take(commands@.len() as int) =~= names);
    out
}

} // verus!
