//! The command parser: one line of text in, a structured [`Command`] or a
//! descriptive error out.

use vstd::prelude::*;

use crate::text::{all_digits, digits_val, join_with, split_ws, tokenize, join_range,
    parse_u32_range, word_eq};

verus! {

/// A parsed user instruction.
///
/// `List` carries the completion filter: `None` shows every task,
/// `Some(false)` the pending ones, `Some(true)` the completed ones.
#[derive(PartialEq, Debug)]
pub enum Command {
    Add(String, Option<String>),
    List(Option<bool>),
    Complete(u32),
    Remove(u32),
    Exit,
}

/// The mathematical value of a [`Command`], over sequences of characters.
pub enum CommandView {
    Add(Seq<char>, Option<Seq<char>>),
    List(Option<bool>),
    Complete(u32),
    Remove(u32),
    Exit,
}

impl View for Command {
    type V = CommandView;

    open spec fn view(&self) -> CommandView {
        match self {
            Command::Add(d, due) => CommandView::Add(d@, due.deep_view()),
            Command::List(f) => CommandView::List(*f),
            Command::Complete(id) => CommandView::Complete(*id),
            Command::Remove(id) => CommandView::Remove(*id),
            Command::Exit => CommandView::Exit,
        }
    }
}

impl DeepView for Command {
    type V = CommandView;

    open spec fn deep_view(&self) -> CommandView {
        self@
    }
}

/// `add`: the remaining tokens joined with single spaces form the
/// description; a trailing `--due <value>` pair is stripped from it and
/// becomes the due date. No description left is an error.
pub open spec fn parse_add_spec(toks: Seq<Seq<char>>) -> Result<CommandView, Seq<char>> {
    let rest = toks.drop_first();
    if rest.len() >= 2 && rest[rest.len() - 2] == "--due"@ {
        let body = rest.take(rest.len() - 2);
        if body.len() == 0 {
            Err("missing description"@)
        } else {
            Ok(CommandView::Add(join_with(' ', body), Some(rest.last())))
        }
    } else {
        if rest.len() == 0 {
            Err("missing description"@)
        } else {
            Ok(CommandView::Add(join_with(' ', rest), None))
        }
    }
}

/// `list`: no further token shows all, `pending` or `completed` filters,
/// anything else is an error.
pub open spec fn parse_list_spec(toks: Seq<Seq<char>>) -> Result<CommandView, Seq<char>> {
    let rest = toks.drop_first();
    if rest.len() == 0 {
        Ok(CommandView::List(None))
    } else if rest.len() == 1 {
        if rest[0] == "pending"@ {
            Ok(CommandView::List(Some(false)))
        } else if rest[0] == "completed"@ {
            Ok(CommandView::List(Some(true)))
        } else {
            Err("unknown filter"@)
        }
    } else {
        Err("unknown filter"@)
    }
}

/// `complete` and `remove` take exactly one id token: a nonempty run of
/// decimal digits whose value fits in `u32`.
pub open spec fn parse_id_spec(toks: Seq<Seq<char>>) -> Result<u32, Seq<char>> {
    let rest = toks.drop_first();
    if rest.len() == 0 {
        Err("missing id"@)
    } else if rest.len() == 1 && rest[0].len() > 0 && all_digits(rest[0]) && digits_val(rest[0])
        <= u32::MAX {
        Ok(digits_val(rest[0]) as u32)
    } else {
        Err("invalid id"@)
    }
}

/// What [`parse_command`] returns, as a function of the input's tokens.
///
/// The first token picks the command; `exit` ignores any further tokens.
pub open spec fn parse_spec(s: Seq<char>) -> Result<CommandView, Seq<char>> {
    let toks = split_ws(s);
    if toks.len() == 0 {
        Err("no command given"@)
    } else if toks[0] == "add"@ {
        parse_add_spec(toks)
    } else if toks[0] == "list"@ {
        parse_list_spec(toks)
    } else if toks[0] == "complete"@ {
        match parse_id_spec(toks) {
            Ok(id) => Ok(CommandView::Complete(id)),
            Err(e) => Err(e),
        }
    } else if toks[0] == "remove"@ {
        match parse_id_spec(toks) {
            Ok(id) => Ok(CommandView::Remove(id)),
            Err(e) => Err(e),
        }
    } else if toks[0] == "exit"@ {
        Ok(CommandView::Exit)
    } else {
        Err("unknown command"@)
    }
}

/// Parses one line of user input into a [`Command`].
///
/// Pure: the result is exactly [`parse_spec`] of the input's characters.
pub fn parse_command(input: &str) -> (r: Result<Command, String>)
    ensures
        match r {
            Ok(c) => parse_spec(input@) == Ok::<CommandView, Seq<char>>(c.deep_view()),
            Err(e) => parse_spec(input@) == Err::<CommandView, Seq<char>>(e@),
        },
{
    let toks = tokenize(input);
    let ghost dv = toks.deep_view();
    let n = toks.len();
    if n == 0 {
        return Err("no command given".to_owned());
    }
    if word_eq(&toks[0], "add") {
        let ghost rest = dv.drop_first();
        if n >= 3 && word_eq(&toks[n - 2], "--due") {
            proof {
                assert(rest[rest.len() - 2] == dv[n - 2]);
                assert(rest.len() >= 2);
            }
            if n - 3 == 0 {
                return Err("missing description".to_owned());
            }
            let desc = join_range(&toks, 1, n - 2);
            let due = toks[n - 1].clone();
            proof {
                assert(rest.take(rest.len() - 2) =~= dv.subrange(1, n - 2));
                assert(rest.last() == dv[n - 1]);
            }
            return Ok(Command::Add(desc, Some(due)));
        } else {
            proof {
                if rest.len() >= 2 {
                    assert(rest[rest.len() - 2] == dv[n - 2]);
                }
            }
            if n == 1 {
                return Err("missing description".to_owned());
            }
            let desc = join_range(&toks, 1, n);
            proof {
                assert(rest =~= dv.subrange(1, n as int));
            }
            return Ok(Command::Add(desc, None));
        }
    }
    if word_eq(&toks[0], "list") {
        if n == 1 {
            return Ok(Command::List(None));
        } else if n == 2 {
            proof {
                assert(dv.drop_first()[0] == dv[1]);
            }
            if word_eq(&toks[1], "pending") {
                return Ok(Command::List(Some(false)));
            } else if word_eq(&toks[1], "completed") {
                return Ok(Command::List(Some(true)));
            } else {
                return Err("unknown filter".to_owned());
            }
        } else {
            return Err("unknown filter".to_owned());
        }
    }
    let is_complete = word_eq(&toks[0], "complete");
    let is_remove = word_eq(&toks[0], "remove");
    if is_complete || is_remove {
        let ghost rest = dv.drop_first();
        if n == 1 {
            return Err("missing id".to_owned());
        }
        proof {
            assert(rest[0] == dv[1]);
        }
        if n > 2 {
            return Err("invalid id".to_owned());
        }
        let tok = &toks[1];
        let len = tok.as_str().unicode_len();
        match parse_u32_range(tok.as_str(), 0, len) {
            Some(v) => {
                proof {
                    assert(tok@.subrange(0, len as int) =~= tok@);
                }
                if is_complete {
                    return Ok(Command::Complete(v));
                } else {
                    return Ok(Command::Remove(v));
                }
            },
            None => {
                proof {
                    assert(tok@.subrange(0, len as int) =~= tok@);
                }
                return Err("invalid id".to_owned());
            },
        }
    }
    if word_eq(&toks[0], "exit") {
        return Ok(Command::Exit);
    }
    Err("unknown command".to_owned())
}

/// Every valid `add` line is parsed with its description exactly
/// reconstructed, whitespace-normalized, and a trailing `--due` pair
/// stripped into the due date.
pub proof fn lemma_parse_add_reconstructs(s: Seq<char>)
    requires
        split_ws(s).len() >= 2,
        split_ws(s)[0] == "add"@,
    ensures
        ({
            let rest = split_ws(s).drop_first();
            if rest.len() >= 2 && rest[rest.len() - 2] == "--due"@ {
                rest.len() >= 3 ==> parse_spec(s) == Ok::<CommandView, Seq<char>>(
                    CommandView::Add(
                        join_with(' ', rest.take(rest.len() - 2)),
                        Some(rest.last()),
                    ),
                )
            } else {
                parse_spec(s) == Ok::<CommandView, Seq<char>>(
                    CommandView::Add(join_with(' ', rest), None),
                )
            }
        }),
{
}

} // verus!
