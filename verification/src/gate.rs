//! The decision gate: when a run is long enough to need an answer, the
//! answer is asked for only where it can be seen and typed, and anything that
//! is not a recognised answer counts as no answer.

use crate::text::{
    ascii_lower_seq, chars_eq, chars_less, chars_lt, chars_of, lemma_chars_lt_total, lemma_chars_lt_trans, str_eq,
    string_from_chars, sub_chars, to_ascii_lower_chars, trim, trim_chars,
};
use vstd::prelude::*;

verus! {

/// "I need a decision before I spend your machine": deliberately distinct from
/// every other exit status the run uses (0 ok, 1 failure, 2 usage, 3 junk).
pub const EXIT_NEEDS_DECISION: i32 = 4;

/// Default gate threshold in minutes.
pub const DEFAULT_MAX_MINUTES: u64 = 10;

/// How many replies a terminal prompt reads before giving up.
pub const ANSWER_ATTEMPTS: usize = 3;

/// An answer to a decision request.
#[derive(Debug, Clone, Copy, PartialEq, Eq, Structural)]
pub enum Approval {
    /// Index everything as planned.
    Proceed,
    /// Index everything, but without semantic fields and relationship edges.
    Fast,
    /// Index nothing and exit cleanly.
    Cancel,
}

pub open spec fn approval_name(a: Approval) -> Seq<char> {
    match a {
        Approval::Proceed => "proceed"@,
        Approval::Fast => "fast"@,
        Approval::Cancel => "cancel"@,
    }
}

pub open spec fn narrower_refusal() -> Seq<char> {
    "--approve narrower cannot be honoured here: 'narrower' means running autoindex against a smaller folder, which this run cannot decide for you. Re-run it as `xerj autoindex <subdirectory>` (the decision request lists the heaviest directories and what each one costs)"@
}

pub open spec fn unknown_refusal(raw: Seq<char>) -> Seq<char> {
    "--approve "@ + raw
        + " is not one of: proceed, fast, cancel (narrower means re-running against a subdirectory — see the decision request)"@
}

/// What `--approve <raw>` means: the three answers this flag can carry out, and
/// a refusal (with the reason) for everything else, `narrower` included.
pub open spec fn spec_parse_approval(raw: Seq<char>) -> Result<Approval, Seq<char>> {
    if raw == "proceed"@ {
        Ok(Approval::Proceed)
    } else if raw == "fast"@ {
        Ok(Approval::Fast)
    } else if raw == "cancel"@ {
        Ok(Approval::Cancel)
    } else if raw == "narrower"@ {
        Err(narrower_refusal())
    } else {
        Err(unknown_refusal(raw))
    }
}

impl Approval {
    pub fn as_str(self) -> (r: &'static str)
        ensures
            r@ == approval_name(self),
    {
        match self {
            Approval::Proceed => "proceed",
            Approval::Fast => "fast",
            Approval::Cancel => "cancel",
        }
    }

    /// Parse an `--approve` value. Exact spelling only; `narrower` is refused
    /// because this flag cannot carry it out.
    pub fn parse(raw: &str) -> (r: Result<Approval, String>)
        ensures
            match (r, spec_parse_approval(raw@)) {
                (Ok(a), Ok(b)) => a == b,
                (Err(e), Err(m)) => e@ == m,
                _ => false,
            },
    {
        if str_eq(raw, "proceed") {
            Ok(Approval::Proceed)
        } else if str_eq(raw, "fast") {
            Ok(Approval::Fast)
        } else if str_eq(raw, "cancel") {
            Ok(Approval::Cancel)
        } else if str_eq(raw, "narrower") {
            Err(
                "--approve narrower cannot be honoured here: 'narrower' means running autoindex against a smaller folder, which this run cannot decide for you. Re-run it as `xerj autoindex <subdirectory>` (the decision request lists the heaviest directories and what each one costs)".to_owned(),
            )
        } else {
            let mut msg = "--approve ".to_owned();
            msg.append(raw);
            msg.append(
                " is not one of: proceed, fast, cancel (narrower means re-running against a subdirectory — see the decision request)",
            );
            Err(msg)
        }
    }
}

/// Why no terminal prompt was offered.
#[derive(Debug, Clone, Copy, PartialEq, Eq, Structural)]
pub enum NoPrompt {
    /// stdin is not a terminal: nobody can type an answer.
    StdinNotTerminal,
    /// stderr is not a terminal: the question would not reach a screen.
    StderrNotTerminal,
    /// The progress surface is silenced, so the question was never printed.
    QuestionSilenced,
}

pub open spec fn explanation(n: NoPrompt) -> Seq<char> {
    match n {
        NoPrompt::StdinNotTerminal => "no terminal prompt: stdin is not a terminal, so no answer could be typed. Re-run with --approve proceed|fast|cancel"@,
        NoPrompt::StderrNotTerminal => "no terminal prompt: stderr is not a terminal, so the question would not have reached a screen. Re-run with --approve proceed|fast|cancel"@,
        NoPrompt::QuestionSilenced => "no terminal prompt: --quiet / --progress none silences the question, and this run will never wait on stdin for something it did not print. The decision request below is on stdout, which --quiet does not silence. Re-run with --approve proceed|fast|cancel, or without --quiet to be asked"@,
    }
}

impl NoPrompt {
    /// One sentence, for the decision payload and the prose.
    pub fn explain(self) -> (r: &'static str)
        ensures
            r@ == explanation(self),
    {
        match self {
            NoPrompt::StdinNotTerminal => "no terminal prompt: stdin is not a terminal, so no answer could be typed. Re-run with --approve proceed|fast|cancel",
            NoPrompt::StderrNotTerminal => "no terminal prompt: stderr is not a terminal, so the question would not have reached a screen. Re-run with --approve proceed|fast|cancel",
            NoPrompt::QuestionSilenced => "no terminal prompt: --quiet / --progress none silences the question, and this run will never wait on stdin for something it did not print. The decision request below is on stdout, which --quiet does not silence. Re-run with --approve proceed|fast|cancel, or without --quiet to be asked",
        }
    }
}

/// Should this run stop to ask, and if not, why not? A prompt is offered only
/// when someone can type, the question reaches a screen, and it was printed.
pub fn prompt_blocked_by(stdin_tty: bool, stderr_tty: bool, question_visible: bool) -> (r: Option<
    NoPrompt,
>)
    ensures
        r == (if !stdin_tty {
            Some(NoPrompt::StdinNotTerminal)
        } else if !stderr_tty {
            Some(NoPrompt::StderrNotTerminal)
        } else if !question_visible {
            Some(NoPrompt::QuestionSilenced)
        } else {
            None
        }),
{
    if !stdin_tty {
        return Some(NoPrompt::StdinNotTerminal);
    }
    if !stderr_tty {
        return Some(NoPrompt::StderrNotTerminal);
    }
    if !question_visible {
        return Some(NoPrompt::QuestionSilenced);
    }
    None
}

/// The question shown before every read.
pub const ANSWER_PROMPT: &'static str = "  answer [p]roceed / [f]ast / [c]ancel (narrower = re-run on a subdirectory): ";

pub open spec fn prompt_line() -> Seq<char> {
    ANSWER_PROMPT@
}

pub open spec fn blank_notice() -> Seq<char> {
    "  no answer read; type p, f or c"@
}

pub open spec fn unrecognised_notice(word: Seq<char>) -> Seq<char> {
    "  '"@ + word + "' is not one of p, f, c"@
}

/// One reply, trimmed and ASCII-lowercased.
#[derive(Debug, PartialEq, Eq)]
pub enum Reply {
    Answer(Approval),
    Blank,
    Unrecognised(String),
}

/// The decision a trimmed, lowercased reply stands for.
pub open spec fn reply_word(w: Seq<char>) -> Option<Approval> {
    if w == "p"@ || w == "proceed"@ || w == "y"@ || w == "yes"@ {
        Some(Approval::Proceed)
    } else if w == "f"@ || w == "fast"@ {
        Some(Approval::Fast)
    } else if w == "c"@ || w == "cancel"@ || w == "n"@ || w == "no"@ || w == "q"@ {
        Some(Approval::Cancel)
    } else {
        None
    }
}

pub open spec fn normalized_reply(line: Seq<char>) -> Seq<char> {
    ascii_lower_seq(trim(line))
}

pub open spec fn reply_is(r: Reply, line: Seq<char>) -> bool {
    let w = normalized_reply(line);
    match reply_word(w) {
        Some(a) => r == Reply::Answer(a),
        None => if w.len() == 0 {
            r == Reply::Blank
        } else {
            r matches Reply::Unrecognised(s) && s@ == w
        },
    }
}

/// A refusal is never consent: a reply that reads (trimmed, ASCII
/// lowercased) `n`, `no`, `c`, `cancel` or `q` cancels; and a reply taken to
/// proceed reads `p`, `proceed`, `y` or `yes`, nothing else.
pub proof fn lemma_replies_mean_what_they_say(r: Reply, line: Seq<char>)
    requires
        reply_is(r, line),
    ensures
        ({
            let w = ascii_lower_seq(trim(line));
            &&& (w == "n"@ || w == "no"@ || w == "c"@ || w == "cancel"@ || w == "q"@) ==> r == Reply::Answer(
                Approval::Cancel,
            )
            &&& r == Reply::Answer(Approval::Proceed) ==> (w == "p"@ || w == "proceed"@ || w == "y"@ || w == "yes"@)
            &&& r == Reply::Answer(Approval::Fast) ==> (w == "f"@ || w == "fast"@)
        }),
{
    reveal_strlit("p");
    reveal_strlit("proceed");
    reveal_strlit("y");
    reveal_strlit("yes");
    reveal_strlit("f");
    reveal_strlit("fast");
    reveal_strlit("c");
    reveal_strlit("cancel");
    reveal_strlit("n");
    reveal_strlit("no");
    reveal_strlit("q");
    assert("p"@.len() == 1 && "p"@[0] == 'p' && "p"@[0] == 'p');
    assert("proceed"@.len() == 7 && "proceed"@[0] == 'p' && "proceed"@[6] == 'd');
    assert("y"@.len() == 1 && "y"@[0] == 'y' && "y"@[0] == 'y');
    assert("yes"@.len() == 3 && "yes"@[0] == 'y' && "yes"@[2] == 's');
    assert("f"@.len() == 1 && "f"@[0] == 'f' && "f"@[0] == 'f');
    assert("fast"@.len() == 4 && "fast"@[0] == 'f' && "fast"@[3] == 't');
    assert("c"@.len() == 1 && "c"@[0] == 'c' && "c"@[0] == 'c');
    assert("cancel"@.len() == 6 && "cancel"@[0] == 'c' && "cancel"@[5] == 'l');
    assert("n"@.len() == 1 && "n"@[0] == 'n' && "n"@[0] == 'n');
    assert("no"@.len() == 2 && "no"@[0] == 'n' && "no"@[1] == 'o');
    assert("q"@.len() == 1 && "q"@[0] == 'q' && "q"@[0] == 'q');
}

/// A first reply of refusal ends the dialog with `Cancel`.
pub proof fn lemma_first_refusal_cancels(replies: Seq<Option<Seq<char>>>)
    requires
        replies.len() > 0,
        replies[0] matches Some(l) && ({
            let w = ascii_lower_seq(trim(l));
            w == "n"@ || w == "no"@ || w == "c"@ || w == "cancel"@ || w == "q"@
        }),
    ensures
        dialog(replies, 0).0 == Some(Approval::Cancel),
{
    reveal_strlit("p");
    reveal_strlit("proceed");
    reveal_strlit("y");
    reveal_strlit("yes");
    reveal_strlit("f");
    reveal_strlit("fast");
    reveal_strlit("c");
    reveal_strlit("cancel");
    reveal_strlit("n");
    reveal_strlit("no");
    reveal_strlit("q");
    assert("p"@.len() == 1 && "p"@[0] == 'p' && "p"@[0] == 'p');
    assert("proceed"@.len() == 7 && "proceed"@[0] == 'p' && "proceed"@[6] == 'd');
    assert("y"@.len() == 1 && "y"@[0] == 'y' && "y"@[0] == 'y');
    assert("yes"@.len() == 3 && "yes"@[0] == 'y' && "yes"@[2] == 's');
    assert("f"@.len() == 1 && "f"@[0] == 'f' && "f"@[0] == 'f');
    assert("fast"@.len() == 4 && "fast"@[0] == 'f' && "fast"@[3] == 't');
    assert("c"@.len() == 1 && "c"@[0] == 'c' && "c"@[0] == 'c');
    assert("cancel"@.len() == 6 && "cancel"@[0] == 'c' && "cancel"@[5] == 'l');
    assert("n"@.len() == 1 && "n"@[0] == 'n' && "n"@[0] == 'n');
    assert("no"@.len() == 2 && "no"@[0] == 'n' && "no"@[1] == 'o');
    assert("q"@.len() == 1 && "q"@[0] == 'q' && "q"@[0] == 'q');
}

/// A blank reply is no answer, and a reply that is none of the answer words
/// is kept, as typed (trimmed and lowercased), as unrecognised.
pub proof fn lemma_other_replies_are_no_answer(r: Reply, line: Seq<char>)
    requires
        reply_is(r, line),
    ensures
        ({
            let w = ascii_lower_seq(trim(line));
            &&& w.len() == 0 ==> r == Reply::Blank
            &&& (w.len() > 0 && w != "p"@ && w != "proceed"@ && w != "y"@ && w != "yes"@ && w != "f"@ && w != "fast"@
                && w != "c"@ && w != "cancel"@ && w != "n"@ && w != "no"@ && w != "q"@) ==> (r matches Reply::Unrecognised(
                x) && x@ == w)
        }),
{
    reveal_strlit("p");
    reveal_strlit("proceed");
    reveal_strlit("y");
    reveal_strlit("yes");
    reveal_strlit("f");
    reveal_strlit("fast");
    reveal_strlit("c");
    reveal_strlit("cancel");
    reveal_strlit("n");
    reveal_strlit("no");
    reveal_strlit("q");
    assert("p"@.len() == 1 && "p"@[0] == 'p' && "p"@[0] == 'p');
    assert("proceed"@.len() == 7 && "proceed"@[0] == 'p' && "proceed"@[6] == 'd');
    assert("y"@.len() == 1 && "y"@[0] == 'y' && "y"@[0] == 'y');
    assert("yes"@.len() == 3 && "yes"@[0] == 'y' && "yes"@[2] == 's');
    assert("f"@.len() == 1 && "f"@[0] == 'f' && "f"@[0] == 'f');
    assert("fast"@.len() == 4 && "fast"@[0] == 'f' && "fast"@[3] == 't');
    assert("c"@.len() == 1 && "c"@[0] == 'c' && "c"@[0] == 'c');
    assert("cancel"@.len() == 6 && "cancel"@[0] == 'c' && "cancel"@[5] == 'l');
    assert("n"@.len() == 1 && "n"@[0] == 'n' && "n"@[0] == 'n');
    assert("no"@.len() == 2 && "no"@[0] == 'n' && "no"@[1] == 'o');
    assert("q"@.len() == 1 && "q"@[0] == 'q' && "q"@[0] == 'q');
}

/// `--approve` carries out exactly the three answers it names: `proceed`,
/// `fast` and `cancel`, spelled exactly; anything else, `narrower` included,
/// is refused.
pub proof fn lemma_approve_flag(raw: Seq<char>)
    ensures
        spec_parse_approval(raw) == Ok::<Approval, Seq<char>>(Approval::Proceed) <==> raw == "proceed"@,
        spec_parse_approval(raw) == Ok::<Approval, Seq<char>>(Approval::Fast) <==> raw == "fast"@,
        spec_parse_approval(raw) == Ok::<Approval, Seq<char>>(Approval::Cancel) <==> raw == "cancel"@,
        raw == "narrower"@ ==> spec_parse_approval(raw) is Err,
{
    reveal_strlit("proceed");
    reveal_strlit("fast");
    reveal_strlit("cancel");
    reveal_strlit("narrower");
    assert("proceed"@.len() == 7 && "fast"@.len() == 4 && "cancel"@.len() == 6 && "narrower"@.len() == 8);
}

fn word_is(w: &[char], lit: &str) -> (r: bool)
    ensures
        r == (w@ == lit@),
{
    let l = chars_of(lit);
    crate::text::chars_eq(w, l.as_slice())
}

/// Classify one line read from a terminal.
pub fn interpret_reply(line: &str) -> (r: Reply)
    ensures
        reply_is(r, line@),
{
    let cs = chars_of(line);
    let t = trim_chars(cs.as_slice());
    let w = to_ascii_lower_chars(t.as_slice());
    let ws = w.as_slice();
    if word_is(ws, "p") || word_is(ws, "proceed") || word_is(ws, "y") || word_is(ws, "yes") {
        Reply::Answer(Approval::Proceed)
    } else if word_is(ws, "f") || word_is(ws, "fast") {
        Reply::Answer(Approval::Fast)
    } else if word_is(ws, "c") || word_is(ws, "cancel") || word_is(ws, "n") || word_is(ws, "no")
        || word_is(ws, "q") {
        Reply::Answer(Approval::Cancel)
    } else if w.len() == 0 {
        Reply::Blank
    } else {
        Reply::Unrecognised(string_from_chars(ws))
    }
}

/// What the terminal is told after a reply that is not an answer; `None`
/// for an answer.
pub fn reply_notice(line: &str) -> (r: Option<String>)
    ensures
        match reply_word(normalized_reply(line@)) {
            Some(_) => r is None,
            None => r matches Some(n) && n@ == if normalized_reply(line@).len() == 0 {
                blank_notice()
            } else {
                unrecognised_notice(normalized_reply(line@))
            },
        },
{
    match interpret_reply(line) {
        Reply::Answer(_) => None,
        Reply::Blank => Some(string_from_chars(chars_of("  no answer read; type p, f or c").as_slice())),
        Reply::Unrecognised(w) => {
            let mut out: Vec<char> = Vec::new();
            crate::text::push_str_chars(&mut out, "  '");
            crate::text::push_str_chars(&mut out, w.as_str());
            crate::text::push_str_chars(&mut out, "' is not one of p, f, c");
            Some(string_from_chars(out.as_slice()))
        },
    }
}

/// The dialog over the replies a terminal gave, in order (`None` is end of
/// input or a read error): at most three reads, each preceded by the prompt;
/// the first recognised answer wins; end of input, or three unrecognised
/// replies, is no answer. Returns the decision and the lines echoed.
pub open spec fn dialog(replies: Seq<Option<Seq<char>>>, attempt: nat) -> (Option<Approval>, Seq<
    Seq<char>,
>)
    decreases 3 - attempt,
{
    if attempt >= 3 {
        (None, seq![])
    } else {
        let read = if attempt < replies.len() {
            replies[attempt as int]
        } else {
            None
        };
        match read {
            None => (None, seq![prompt_line()]),
            Some(line) => {
                let w = normalized_reply(line);
                match reply_word(w) {
                    Some(a) => (Some(a), seq![prompt_line()]),
                    None => {
                        let notice = if w.len() == 0 {
                            blank_notice()
                        } else {
                            unrecognised_notice(w)
                        };
                        let rest = dialog(replies, attempt + 1);
                        (rest.0, seq![prompt_line(), notice] + rest.1)
                    },
                }
            },
        }
    }
}

/// Reply `i` spells approval `a`.
pub open spec fn spells(replies: Seq<Option<Seq<char>>>, i: int, a: Approval) -> bool {
    &&& 0 <= i < replies.len()
    &&& (replies[i] matches Some(l) && reply_word(normalized_reply(l)) == Some(a))
}

proof fn lemma_dialog_from(replies: Seq<Option<Seq<char>>>, n: nat, a: Approval)
    requires
        dialog(replies, n).0 == Some(a),
    ensures
        exists|i: int| n <= i < 3 && #[trigger] spells(replies, i, a),
    decreases 3 - n,
{
    if n < 3 {
        let read = if n < replies.len() {
            replies[n as int]
        } else {
            None
        };
        match read {
            None => {},
            Some(line) => {
                if reply_word(normalized_reply(line)) is Some {
                    assert(spells(replies, n as int, a));
                } else {
                    lemma_dialog_from(replies, n + 1, a);
                }
            },
        }
    }
}

/// A non-answer is never consent: the dialog comes to an approval only
/// when one of the first three replies spells exactly that approval.
pub proof fn lemma_no_answer_no_consent(replies: Seq<Option<Seq<char>>>, a: Approval)
    ensures
        dialog(replies, 0).0 == Some(a) ==> exists|i: int| 0 <= i < 3 && #[trigger] spells(replies, i, a),
{
    if dialog(replies, 0).0 == Some(a) {
        lemma_dialog_from(replies, 0, a);
    }
}

pub open spec fn views(v: Seq<String>) -> Seq<Seq<char>> {
    v.map_values(|s: String| s@)
}

pub open spec fn opt_views(v: Seq<Option<String>>) -> Seq<Option<Seq<char>>> {
    v.map_values(|o: Option<String>| match o {
        Some(s) => Some(s@),
        None => None,
    })
}

/// Does the dialog end at this read (an answer, or end of input)?
pub fn reply_settles(read: &Option<String>) -> (r: bool)
    ensures
        r == match read {
            None => true,
            Some(s) => reply_word(normalized_reply(s@)).is_some(),
        },
{
    match read {
        None => true,
        Some(s) => match interpret_reply(s.as_str()) {
            Reply::Answer(_) => true,
            _ => false,
        },
    }
}

/// Read one answer from the replies a terminal gave. `None` means "no
/// answer" and must be treated as cancel, never as consent.
pub fn read_answer(replies: &[Option<String>], echo: &mut Vec<String>) -> (r: Option<Approval>)
    ensures
        r == dialog(opt_views(replies@), 0).0,
        views(final(echo)@) == views(old(echo)@) + dialog(opt_views(replies@), 0).1,
        replies@.len() > 0 && (replies@[0] matches Some(l) && ({
            let w = ascii_lower_seq(trim(l@));
            w == "n"@ || w == "no"@ || w == "c"@ || w == "cancel"@ || w == "q"@
        })) ==> r == Some(Approval::Cancel),
{
    proof {
        let rs = opt_views(replies@);
        if replies@.len() > 0 && (replies@[0] matches Some(l) && ({
            let w = ascii_lower_seq(trim(l@));
            w == "n"@ || w == "no"@ || w == "c"@ || w == "cancel"@ || w == "q"@
        })) {
            assert(rs[0] == Some(replies@[0]->0@));
            lemma_first_refusal_cancels(rs);
        }
    }
    let ghost rs = opt_views(replies@);
    let mut attempt: usize = 0;
    let ghost mut acc: Seq<Seq<char>> = seq![];
    while attempt < ANSWER_ATTEMPTS
        invariant
            attempt <= 3,
            rs == opt_views(replies@),
            views(echo@) == views(old(echo)@) + acc,
            dialog(rs, 0).0 == dialog(rs, attempt as nat).0,
            dialog(rs, 0).1 == acc + dialog(rs, attempt as nat).1,
            replies@.len() > 0 && (replies@[0] matches Some(l) && ({
                let w = ascii_lower_seq(trim(l@));
                w == "n"@ || w == "no"@ || w == "c"@ || w == "cancel"@ || w == "q"@
            })) ==> dialog(rs, 0).0 == Some(Approval::Cancel),
        decreases 3 - attempt,
    {
        echo.push(
            "  answer [p]roceed / [f]ast / [c]ancel (narrower = re-run on a subdirectory): ".to_owned(),
        );
        proof {
            assert(views(echo@) =~= views(old(echo)@) + acc + seq![prompt_line()]);
        }
        let ghost before = echo@;
        if attempt >= replies.len() {
            proof {
                assert(dialog(rs, attempt as nat).1 =~= seq![prompt_line()]);
                assert(views(echo@) =~= views(old(echo)@) + dialog(rs, 0).1);
            }
            return None;
        }
        match &replies[attempt] {
            None => {
                proof {
                    assert(rs[attempt as int] == None::<Seq<char>>);
                    assert(dialog(rs, attempt as nat).1 =~= seq![prompt_line()]);
                    assert(views(echo@) =~= views(old(echo)@) + dialog(rs, 0).1);
                }
                return None;
            },
            Some(line) => {
                proof {
                    assert(rs[attempt as int] == Some(line@));
                }
                match interpret_reply(line.as_str()) {
                    Reply::Answer(a) => {
                        proof {
                            assert(dialog(rs, attempt as nat).1 =~= seq![prompt_line()]);
                            assert(views(echo@) =~= views(old(echo)@) + dialog(rs, 0).1);
                        }
                        return Some(a);
                    },
                    Reply::Blank => {
                        echo.push("  no answer read; type p, f or c".to_owned());
                        proof {
                            assert(echo@ =~= before.push(echo@.last()));
                            assert(views(echo@) =~= views(before) + seq![blank_notice()]);
                            acc = acc + seq![prompt_line(), blank_notice()];
                            assert(views(echo@) =~= views(old(echo)@) + acc);
                            assert(dialog(rs, attempt as nat).1 =~= seq![
                                prompt_line(),
                                blank_notice(),
                            ] + dialog(rs, (attempt + 1) as nat).1);
                            assert(dialog(rs, 0).1 =~= acc + dialog(rs, (attempt + 1) as nat).1);
                        }
                    },
                    Reply::Unrecognised(word) => {
                        let mut msg = "  '".to_owned();
                        msg.append(word.as_str());
                        msg.append("' is not one of p, f, c");
                        echo.push(msg);
                        proof {
                            let w = normalized_reply(line@);
                            assert(echo@ =~= before.push(echo@.last()));
                            assert(views(echo@) =~= views(before) + seq![unrecognised_notice(w)]);
                            acc = acc + seq![prompt_line(), unrecognised_notice(w)];
                            assert(views(echo@) =~= views(old(echo)@) + acc);
                            assert(dialog(rs, attempt as nat).1 =~= seq![
                                prompt_line(),
                                unrecognised_notice(w),
                            ] + dialog(rs, (attempt + 1) as nat).1);
                            assert(dialog(rs, 0).1 =~= acc + dialog(rs, (attempt + 1) as nat).1);
                        }
                    },
                }
            },
        }
        attempt += 1;
    }
    proof {
        assert(dialog(rs, 3).1 =~= seq![]);
        assert(views(echo@) =~= views(old(echo)@) + dialog(rs, 0).1);
    }
    None
}

/// Ask, but only when `prompt_blocked_by` said it was safe: a blocked prompt
/// never calls `open_stdin`, returns no answer and echoes nothing.
pub fn answer_from_terminal<F: FnOnce() -> Vec<Option<String>>>(
    blocked: Option<NoPrompt>,
    open_stdin: F,
    echo: &mut Vec<String>,
) -> (r: Option<Approval>)
    requires
        call_requires(open_stdin, ()),
    ensures
        blocked is Some ==> r is None && final(echo)@ == old(echo)@,
        blocked is None ==> exists|replies: Vec<Option<String>>|
            #![trigger call_ensures(open_stdin, (), replies)]
            call_ensures(open_stdin, (), replies) && r == dialog(opt_views(replies@), 0).0
                && views(final(echo)@) == views(old(echo)@) + dialog(opt_views(replies@), 0).1,
{
    if blocked.is_some() {
        return None;
    }
    let replies = open_stdin();
    read_answer(replies.as_slice(), echo)
}

// ---- where the planned bytes sit ----

/// Planned weight of one top-level directory of the corpus.
#[derive(Debug, Clone)]
pub struct DirectoryWeight {
    /// Root-relative first path segment, or `.` for files directly under the root.
    pub path: String,
    pub files: u64,
    pub bytes: u64,
}

/// The first index at or after `i` that holds `/`, or the length.
pub open spec fn slash_from(s: Seq<char>, i: int) -> int
    decreases s.len() - i,
{
    if i >= s.len() {
        s.len() as int
    } else if s[i] == '/' {
        i
    } else {
        slash_from(s, i + 1)
    }
}

/// The directory a planned file counts under: its first path segment, or
/// `.` for a file directly under the root.
pub open spec fn top_dir(rel: Seq<char>) -> Seq<char> {
    let k = slash_from(rel, 0);
    if k < rel.len() {
        rel.take(k)
    } else {
        seq!['.']
    }
}

pub open spec fn planned_view(files: Seq<(String, u64)>) -> Seq<(Seq<char>, u64)> {
    files.map_values(|f: (String, u64)| (f.0@, f.1))
}

/// How many planned files count under `d`.
pub open spec fn dir_files(files: Seq<(Seq<char>, u64)>, d: Seq<char>) -> nat
    decreases files.len(),
{
    if files.len() == 0 {
        0
    } else {
        dir_files(files.drop_last(), d) + if top_dir(files.last().0) == d {
            1nat
        } else {
            0nat
        }
    }
}

/// How many planned bytes count under `d`.
pub open spec fn dir_bytes(files: Seq<(Seq<char>, u64)>, d: Seq<char>) -> nat
    decreases files.len(),
{
    if files.len() == 0 {
        0
    } else {
        dir_bytes(files.drop_last(), d) + if top_dir(files.last().0) == d {
            files.last().1 as nat
        } else {
            0nat
        }
    }
}

/// All planned bytes.
pub open spec fn total_bytes(files: Seq<(Seq<char>, u64)>) -> nat
    decreases files.len(),
{
    if files.len() == 0 {
        0
    } else {
        total_bytes(files.drop_last()) + files.last().1 as nat
    }
}

/// Some planned file counts under `d`.
pub open spec fn has_dir(files: Seq<(Seq<char>, u64)>, d: Seq<char>) -> bool {
    exists|i: int| 0 <= i < files.len() && top_dir(#[trigger] files[i].0) == d
}

/// `a` is listed before `b`: more bytes first, then by path.
pub open spec fn weighs_before(a: (Seq<char>, nat), b: (Seq<char>, nat)) -> bool {
    a.1 > b.1 || (a.1 == b.1 && chars_lt(a.0, b.0))
}

pub open spec fn weight_of(w: DirectoryWeight) -> (Seq<char>, nat) {
    (w.path@, w.bytes as nat)
}

proof fn lemma_weighs_trans(a: (Seq<char>, nat), b: (Seq<char>, nat), c: (Seq<char>, nat))
    requires
        weighs_before(a, b),
        weighs_before(b, c),
    ensures
        weighs_before(a, c),
{
    if a.1 == b.1 && b.1 == c.1 {
        lemma_chars_lt_trans(a.0, b.0, c.0);
    }
}

proof fn lemma_weighs_total(a: (Seq<char>, nat), b: (Seq<char>, nat))
    requires
        a.0 != b.0,
    ensures
        weighs_before(a, b) || weighs_before(b, a),
{
    lemma_chars_lt_total(a.0, b.0);
}

proof fn lemma_dir_within(files: Seq<(Seq<char>, u64)>, d: Seq<char>)
    ensures
        dir_bytes(files, d) <= total_bytes(files),
        dir_files(files, d) <= files.len(),
    decreases files.len(),
{
    if files.len() > 0 {
        lemma_dir_within(files.drop_last(), d);
    }
}

proof fn lemma_no_dir(files: Seq<(Seq<char>, u64)>, d: Seq<char>)
    requires
        !has_dir(files, d),
    ensures
        dir_files(files, d) == 0,
        dir_bytes(files, d) == 0,
    decreases files.len(),
{
    if files.len() > 0 {
        assert(top_dir(files[files.len() - 1].0) != d);
        assert forall|i: int| 0 <= i < files.drop_last().len() implies top_dir(#[trigger] files.drop_last()[i].0) != d by {
            assert(files.drop_last()[i] == files[i]);
        }
        lemma_no_dir(files.drop_last(), d);
    }
}

proof fn lemma_total_prefix(files: Seq<(Seq<char>, u64)>, i: int)
    requires
        0 <= i <= files.len(),
    ensures
        total_bytes(files.take(i)) <= total_bytes(files),
    decreases files.len(),
{
    if i < files.len() {
        assert(files.drop_last().take(i) =~= files.take(i));
        lemma_total_prefix(files.drop_last(), i);
    } else {
        assert(files.take(i) =~= files);
    }
}

/// The directory of one planned path.
fn top_dir_exec(rel: &[char]) -> (r: Vec<char>)
    ensures
        r@ == top_dir(rel@),
{
    let mut i: usize = 0;
    while i < rel.len()
        invariant
            i <= rel@.len(),
            slash_from(rel@, 0) == slash_from(rel@, i as int),
        decreases rel@.len() - i,
    {
        if rel[i] == '/' {
            return sub_chars(rel, 0, i);
        }
        i += 1;
    }
    vec!['.']
}

/// Aggregate planned bytes by first path segment, heaviest first (ties by
/// path), at most `top_n` of them.
pub fn heaviest_directories(files: &[(String, u64)], top_n: usize) -> (r: Vec<DirectoryWeight>)
    requires
        total_bytes(planned_view(files@)) <= u64::MAX,
    ensures
        r@.len() <= top_n,
        forall|k: int|
            0 <= k < r@.len() ==> {
                let d = (#[trigger] r@[k]).path@;
                &&& has_dir(planned_view(files@), d)
                &&& r@[k].files == dir_files(planned_view(files@), d)
                &&& r@[k].bytes == dir_bytes(planned_view(files@), d)
            },
        forall|k: int, l: int| 0 <= k < l < r@.len() ==> weighs_before(weight_of(#[trigger] r@[k]), weight_of(#[trigger] r@[l])),
        forall|d: Seq<char>|
            #![trigger has_dir(planned_view(files@), d)]
            has_dir(planned_view(files@), d) && !(exists|k: int| 0 <= k < r@.len() && (#[trigger] r@[k]).path@ == d) ==> {
                &&& r@.len() == top_n
                &&& forall|k: int| 0 <= k < r@.len() ==> weighs_before(weight_of(#[trigger] r@[k]), (d, dir_bytes(planned_view(files@), d)))
            },
{
    let ghost fv = planned_view(files@);
    let mut paths: Vec<Vec<char>> = Vec::new();
    let mut counts: Vec<u64> = Vec::new();
    let mut sizes: Vec<u64> = Vec::new();
    let mut i: usize = 0;
    while i < files.len()
        invariant
            i <= files@.len(),
            fv == planned_view(files@),
            total_bytes(fv) <= u64::MAX,
            paths@.len() == counts@.len() == sizes@.len(),
            forall|g: int|
                0 <= g < paths@.len() ==> {
                    &&& has_dir(fv.take(i as int), (#[trigger] paths@[g])@)
                    &&& counts@[g] == dir_files(fv.take(i as int), paths@[g]@)
                    &&& sizes@[g] == dir_bytes(fv.take(i as int), paths@[g]@)
                },
            forall|g1: int, g2: int| 0 <= g1 < g2 < paths@.len() ==> (#[trigger] paths@[g1])@ != (#[trigger] paths@[g2])@,
            forall|d: Seq<char>|
                #![trigger has_dir(fv.take(i as int), d)]
                has_dir(fv.take(i as int), d) ==> exists|g: int| 0 <= g < paths@.len() && (#[trigger] paths@[g])@ == d,
        decreases files@.len() - i,
    {
        let ghost pre = fv.take(i as int);
        let ghost post = fv.take(i + 1);
        let rel = chars_of(files[i].0.as_str());
        let seg = top_dir_exec(rel.as_slice());
        let b = files[i].1;
        proof {
            assert(fv[i as int] == (files@[i as int].0@, files@[i as int].1));
            assert(post.drop_last() =~= pre);
            assert(post.last() == fv[i as int]);
            lemma_total_prefix(fv, i + 1);
            lemma_dir_within(post, seg@);
            assert forall|d: Seq<char>| #[trigger] has_dir(pre, d) implies has_dir(post, d) by {
                let w = choose|w: int| 0 <= w < pre.len() && top_dir(#[trigger] pre[w].0) == d;
                assert(post[w] == pre[w]);
            }
            assert(top_dir(post[i as int].0) == seg@);
            assert(has_dir(post, seg@));
        }
        let ghost old_paths = paths@;
        let ghost old_counts = counts@;
        let ghost old_sizes = sizes@;
        let mut g: usize = 0;
        let mut found = false;
        while g < paths.len() && !found
            invariant
                g <= paths@.len(),
                found ==> g < paths@.len() && paths@[g as int]@ == seg@,
                forall|h: int| 0 <= h < g ==> (#[trigger] paths@[h])@ != seg@,
            decreases paths@.len() - g + if found { 0int } else { 1int },
        {
            if chars_eq(paths[g].as_slice(), seg.as_slice()) {
                found = true;
            } else {
                g += 1;
            }
        }
        proof {
            if !found {
                if has_dir(pre, seg@) {
                    let h = choose|h: int| 0 <= h < old_paths.len() && (#[trigger] old_paths[h])@ == seg@;
                    assert(false);
                }
                lemma_no_dir(pre, seg@);
            }
        }
        if found {
            let c = counts[g];
            let s = sizes[g];
            proof {
                assert(counts@[g as int] == dir_files(pre, seg@));
            }
            counts.set(g, c + 1);
            sizes.set(g, s + b);
        } else {
            paths.push(seg);
            counts.push(1);
            sizes.push(b);
        }
        proof {
            assert forall|h: int| 0 <= h < paths@.len() implies {
                &&& has_dir(post, (#[trigger] paths@[h])@)
                &&& counts@[h] == dir_files(post, paths@[h]@)
                &&& sizes@[h] == dir_bytes(post, paths@[h]@)
            } by {
                if h < old_paths.len() {
                    assert(paths@[h] == old_paths[h]);
                    assert(has_dir(pre, old_paths[h]@));
                    assert(old_counts[h] == dir_files(pre, old_paths[h]@));
                    assert(old_sizes[h] == dir_bytes(pre, old_paths[h]@));
                }
                if paths@[h]@ != seg@ {
                    assert(h < old_paths.len());
                    assert(counts@[h] == old_counts[h]);
                    assert(sizes@[h] == old_sizes[h]);
                }
            }
            assert forall|g1: int, g2: int| 0 <= g1 < g2 < paths@.len() implies (#[trigger] paths@[g1])@ != (#[trigger] paths@[g2])@ by {
                if g2 >= old_paths.len() {
                    assert(paths@[g1] == old_paths[g1]);
                } else {
                    assert(paths@[g1] == old_paths[g1]);
                    assert(paths@[g2] == old_paths[g2]);
                }
            }
            assert forall|d: Seq<char>| #[trigger] has_dir(post, d) implies exists|h: int| 0 <= h < paths@.len() && (#[trigger] paths@[h])@ == d by {
                let w = choose|w: int| 0 <= w < post.len() && top_dir(#[trigger] post[w].0) == d;
                if w < i {
                    assert(pre[w] == post[w]);
                    assert(has_dir(pre, d));
                    let h = choose|h: int| 0 <= h < old_paths.len() && (#[trigger] old_paths[h])@ == d;
                    assert(paths@[h] == old_paths[h]);
                } else {
                    assert(d == seg@);
                    if found {
                        assert(paths@[g as int]@ == seg@);
                    } else {
                        assert(paths@[old_paths.len() as int]@ == seg@);
                    }
                }
            }
        }
        i += 1;
    }
    proof {
        assert(fv.take(files@.len() as int) =~= fv);
    }
    let ng = paths.len();
    let mut used: Vec<bool> = Vec::new();
    let mut u: usize = 0;
    while u < ng
        invariant
            u <= ng,
            used@.len() == u,
            forall|j: int| 0 <= j < u ==> !(#[trigger] used@[j]),
        decreases ng - u,
    {
        used.push(false);
        u += 1;
    }
    let mut out: Vec<DirectoryWeight> = Vec::new();
    let ghost mut sel: Seq<int> = Seq::empty();
    let mut exhausted = false;
    while out.len() < top_n && !exhausted
        invariant
            ng == paths@.len() == counts@.len() == sizes@.len() == used@.len(),
            out@.len() == sel.len() <= top_n,
            forall|g: int|
                0 <= g < ng ==> {
                    &&& has_dir(fv, (#[trigger] paths@[g])@)
                    &&& counts@[g] == dir_files(fv, paths@[g]@)
                    &&& sizes@[g] == dir_bytes(fv, paths@[g]@)
                },
            forall|g1: int, g2: int| 0 <= g1 < g2 < ng ==> (#[trigger] paths@[g1])@ != (#[trigger] paths@[g2])@,
            forall|d: Seq<char>|
                #![trigger has_dir(fv, d)]
                has_dir(fv, d) ==> exists|g: int| 0 <= g < ng && (#[trigger] paths@[g])@ == d,
            forall|k: int|
                0 <= k < sel.len() ==> {
                    &&& 0 <= #[trigger] sel[k] < ng
                    &&& out@[k].path@ == paths@[sel[k]]@
                    &&& out@[k].files == counts@[sel[k]]
                    &&& out@[k].bytes == sizes@[sel[k]]
                },
            forall|j: int| 0 <= j < ng ==> (#[trigger] used@[j] <==> exists|k: int| 0 <= k < sel.len() && sel[k] == j),
            forall|k: int, l: int| 0 <= k < l < out@.len() ==> weighs_before(weight_of(#[trigger] out@[k]), weight_of(#[trigger] out@[l])),
            forall|j: int, k: int|
                0 <= j < ng && !used@[j] && 0 <= k < out@.len() ==> weighs_before(weight_of(#[trigger] out@[k]), ((#[trigger] paths@[j])@, sizes@[j] as nat)),
            exhausted ==> forall|j: int| 0 <= j < ng ==> #[trigger] used@[j],
        decreases (top_n - out@.len()) * 2 + if exhausted { 0int } else { 1int },
    {
        let mut best: Option<usize> = None;
        let mut j: usize = 0;
        while j < ng
            invariant
                j <= ng == paths@.len() == sizes@.len() == used@.len(),
                forall|g1: int, g2: int| 0 <= g1 < g2 < ng ==> (#[trigger] paths@[g1])@ != (#[trigger] paths@[g2])@,
                match best {
                    Some(b) => {
                        &&& b < j
                        &&& !used@[b as int]
                        &&& forall|h: int|
                            0 <= h < j && !used@[h] && h != b ==> weighs_before(
                                (paths@[b as int]@, sizes@[b as int] as nat),
                                ((#[trigger] paths@[h])@, sizes@[h] as nat),
                            )
                    },
                    None => forall|h: int| 0 <= h < j ==> #[trigger] used@[h],
                },
            decreases ng - j,
        {
            if !used[j] {
                match best {
                    None => {
                        best = Some(j);
                    },
                    Some(b) => {
                        if sizes[j] > sizes[b] || (sizes[j] == sizes[b] && chars_less(paths[j].as_slice(), paths[b].as_slice())) {
                            proof {
                                assert forall|h: int|
                                    0 <= h < j + 1 && !used@[h] && h != j implies weighs_before(
                                    (paths@[j as int]@, sizes@[j as int] as nat),
                                    ((#[trigger] paths@[h])@, sizes@[h] as nat),
                                ) by {
                                    if h != b {
                                        lemma_weighs_trans(
                                            (paths@[j as int]@, sizes@[j as int] as nat),
                                            (paths@[b as int]@, sizes@[b as int] as nat),
                                            (paths@[h]@, sizes@[h] as nat),
                                        );
                                    }
                                }
                            }
                            best = Some(j);
                        } else {
                            proof {
                                assert(paths@[b as int]@ != paths@[j as int]@);
                                lemma_weighs_total(
                                    (paths@[b as int]@, sizes@[b as int] as nat),
                                    (paths@[j as int]@, sizes@[j as int] as nat),
                                );
                            }
                        }
                    },
                }
            }
            j += 1;
        }
        match best {
            None => {
                exhausted = true;
            },
            Some(b) => {
                let w = DirectoryWeight { path: string_from_chars(paths[b].as_slice()), files: counts[b], bytes: sizes[b] };
                proof {
                    assert forall|k: int| 0 <= k < out@.len() implies weighs_before(weight_of(#[trigger] out@[k]), weight_of(w)) by {
                        assert(!used@[b as int]);
                    }
                }
                let ghost old_used = used@;
                let ghost old_sel = sel;
                let ghost old_out = out@;
                out.push(w);
                used.set(b, true);
                proof {
                    sel = sel.push(b as int);
                    assert forall|jj: int| 0 <= jj < ng implies (#[trigger] used@[jj] <==> exists|k: int| 0 <= k < sel.len() && sel[k] == jj) by {
                        if jj != b {
                            assert(used@[jj] == old_used[jj]);
                            if old_used[jj] {
                                let k = choose|k: int| 0 <= k < old_sel.len() && old_sel[k] == jj;
                                assert(sel[k] == jj);
                            }
                            if exists|k: int| 0 <= k < sel.len() && sel[k] == jj {
                                let k = choose|k: int| 0 <= k < sel.len() && sel[k] == jj;
                                assert(k < old_sel.len());
                                assert(old_sel[k] == jj);
                            }
                        } else {
                            assert(sel[sel.len() - 1] == jj);
                        }
                    }
                    assert forall|k: int|
                        0 <= k < sel.len() implies {
                            &&& 0 <= #[trigger] sel[k] < ng
                            &&& out@[k].path@ == paths@[sel[k]]@
                            &&& out@[k].files == counts@[sel[k]]
                            &&& out@[k].bytes == sizes@[sel[k]]
                        } by {
                        if k < old_sel.len() {
                            assert(sel[k] == old_sel[k]);
                            assert(out@[k] == old_out[k]);
                        }
                    }
                    assert forall|k: int, l: int| 0 <= k < l < out@.len() implies weighs_before(weight_of(#[trigger] out@[k]), weight_of(#[trigger] out@[l])) by {
                        assert(out@[k] == old_out[k]);
                        if l < old_out.len() {
                            assert(out@[l] == old_out[l]);
                        }
                    }
                    assert forall|jj: int, k: int|
                        0 <= jj < ng && !used@[jj] && 0 <= k < out@.len() implies weighs_before(weight_of(#[trigger] out@[k]), ((#[trigger] paths@[jj])@, sizes@[jj] as nat)) by {
                        assert(jj != b);
                        assert(!old_used[jj]);
                        if k < old_out.len() {
                            assert(out@[k] == old_out[k]);
                        }
                    }
                }
            },
        }
    }
    proof {
        assert forall|k: int| 0 <= k < out@.len() implies {
            let d = (#[trigger] out@[k]).path@;
            &&& has_dir(fv, d)
            &&& out@[k].files == dir_files(fv, d)
            &&& out@[k].bytes == dir_bytes(fv, d)
        } by {
            let g = sel[k];
            assert(has_dir(fv, paths@[g]@));
        }
        assert forall|d: Seq<char>|
            has_dir(fv, d) && !(exists|k: int| 0 <= k < out@.len() && (#[trigger] out@[k]).path@ == d) implies {
                &&& out@.len() == top_n
                &&& forall|k: int| 0 <= k < out@.len() ==> weighs_before(weight_of(#[trigger] out@[k]), (d, dir_bytes(fv, d)))
            } by {
            let g = choose|g: int| 0 <= g < ng && (#[trigger] paths@[g])@ == d;
            if used@[g] {
                let k = choose|k: int| 0 <= k < sel.len() && sel[k] == g;
                assert(out@[k].path@ == d);
            }
            assert(!used@[g]);
        }
    }
    out
}

} // verus!
