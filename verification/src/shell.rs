//! The user shell's command language: tokens, pipelines of stages with
//! redirections, and command lists joined by `;`, `&`, `&&` and `||`.

use vstd::prelude::*;
use std::collections::VecDeque;
use crate::editor::{history_add, history_add_spec, lines_view};

verus! {

/// Unicode `White_Space`, the set `char::is_whitespace` tests.
pub open spec fn is_whitespace_spec(c: char) -> bool {
    let u = c as u32;
    (0x9 <= u <= 0xd) || u == 0x20 || u == 0x85 || u == 0xa0 || u == 0x1680 || (0x2000 <= u <= 0x200a)
        || u == 0x2028 || u == 0x2029 || u == 0x202f || u == 0x205f || u == 0x3000
}

pub fn is_whitespace(c: char) -> (b: bool)
    ensures
        b == is_whitespace_spec(c),
{
    let u = c as u32;
    (0x9 <= u && u <= 0xd) || u == 0x20 || u == 0x85 || u == 0xa0 || u == 0x1680 || (0x2000 <= u && u <= 0x200a)
        || u == 0x2028 || u == 0x2029 || u == 0x202f || u == 0x205f || u == 0x3000
}

/// Why a command line was rejected.
#[derive(Copy, Clone, Debug, PartialEq, Eq, Structural)]
pub enum ShellError {
    /// A quote was left open, or the line ends with a backslash.
    Unbalanced,
    /// A pipeline stage, or a command before a separator, has no program.
    EmptyCommand,
    /// A redirection operator ends the line.
    MissingRedirectTarget,
}

impl ShellError {
    pub fn message(&self) -> (m: &'static str)
        ensures
            *self == ShellError::Unbalanced ==> m@ == "unbalanced quotes or trailing escape"@,
            *self == ShellError::EmptyCommand ==> m@ == "empty command in pipeline"@,
            *self == ShellError::MissingRedirectTarget ==> m@ == "missing file for redirection"@,
    {
        match self {
            ShellError::Unbalanced => "unbalanced quotes or trailing escape",
            ShellError::EmptyCommand => "empty command in pipeline",
            ShellError::MissingRedirectTarget => "missing file for redirection",
        }
    }
}

// ---------------------------------------------------------------- tokens

/// State of the tokenizer between two characters.
pub struct TokState {
    pub tokens: Seq<Seq<char>>,
    pub cur: Seq<char>,
    pub quote: Option<char>,
    pub escaped: bool,
}

pub open spec fn tok_init() -> TokState {
    TokState { tokens: Seq::empty(), cur: Seq::empty(), quote: None, escaped: false }
}

/// `tokens` with the word `cur` ended (if any).
pub open spec fn flush(tokens: Seq<Seq<char>>, cur: Seq<char>) -> Seq<Seq<char>> {
    if cur.len() > 0 { tokens.push(cur) } else { tokens }
}

/// The two-character operator that starts at `i`, if any.
pub open spec fn two_char_op(s: Seq<char>, i: int) -> Option<Seq<char>> {
    if i + 1 < s.len() {
        let c = s[i];
        let d = s[i + 1];
        if c == '&' && d == '&' {
            Some(seq!['&', '&'])
        } else if c == '|' && d == '|' {
            Some(seq!['|', '|'])
        } else if c == '>' && d == '>' {
            Some(seq!['>', '>'])
        } else if c == '2' && d == '>' {
            Some(seq!['2', '>'])
        } else {
            None
        }
    } else {
        None
    }
}

/// A character that is an operator token by itself.
pub open spec fn single_op(c: char) -> bool {
    c == ';' || c == '|' || c == '&' || c == '<' || c == '>'
}

/// The tokenizer run over `s` from position `i` in state `st`.
pub open spec fn tok_run(s: Seq<char>, i: int, st: TokState) -> TokState
    decreases s.len() - i,
{
    if i < 0 || i >= s.len() {
        st
    } else {
        let c = s[i];
        if st.escaped {
            tok_run(s, i + 1, TokState { cur: st.cur.push(c), escaped: false, ..st })
        } else if c == '\\' {
            tok_run(s, i + 1, TokState { escaped: true, ..st })
        } else if st.quote.is_some() {
            if c == st.quote.unwrap() {
                tok_run(s, i + 1, TokState { quote: None, ..st })
            } else {
                tok_run(s, i + 1, TokState { cur: st.cur.push(c), ..st })
            }
        } else if two_char_op(s, i).is_some() {
            tok_run(
                s,
                i + 2,
                TokState { tokens: flush(st.tokens, st.cur).push(two_char_op(s, i).unwrap()), cur: Seq::empty(), ..st },
            )
        } else if c == '\'' || c == '"' {
            tok_run(s, i + 1, TokState { quote: Some(c), ..st })
        } else if single_op(c) {
            tok_run(s, i + 1, TokState { tokens: flush(st.tokens, st.cur).push(seq![c]), cur: Seq::empty(), ..st })
        } else if is_whitespace_spec(c) {
            tok_run(s, i + 1, TokState { tokens: flush(st.tokens, st.cur), cur: Seq::empty(), ..st })
        } else {
            tok_run(s, i + 1, TokState { cur: st.cur.push(c), ..st })
        }
    }
}

/// The tokens of `s`: words (quotes group, a backslash escapes the next
/// character) and the operators `; | & < > && || >> 2>`.
pub open spec fn tokenize_spec(s: Seq<char>) -> Result<Seq<Seq<char>>, ShellError> {
    let st = tok_run(s, 0, tok_init());
    if st.escaped || st.quote.is_some() {
        Err(ShellError::Unbalanced)
    } else {
        Ok(flush(st.tokens, st.cur))
    }
}

/// The contents of a list of words.
pub open spec fn words(v: Seq<Vec<char>>) -> Seq<Seq<char>> {
    v.map_values(|w: Vec<char>| w@)
}

proof fn lemma_words_push(v: Seq<Vec<char>>, w: Vec<char>)
    ensures
        words(v.push(w)) == words(v).push(w@),
{
    assert(words(v.push(w)) =~= words(v).push(w@));
}

/// Ends the word `cur` (if any) into `tokens`.
fn flush_word(tokens: &mut Vec<Vec<char>>, cur: &mut Vec<char>)
    ensures
        words(final(tokens)@) == flush(words(old(tokens)@), old(cur)@),
        final(cur)@.len() == 0,
{
    if cur.len() > 0 {
        let mut w: Vec<char> = Vec::new();
        std::mem::swap(&mut w, cur);
        proof {
            lemma_words_push(tokens@, w);
        }
        tokens.push(w);
    }
}

fn chars_of2(a: char, b: char) -> (v: Vec<char>)
    ensures
        v@ == seq![a, b],
{
    let mut v: Vec<char> = Vec::new();
    v.push(a);
    v.push(b);
    assert(v@ =~= seq![a, b]);
    v
}

/// A character of a plain word: no whitespace, quote, backslash or
/// operator character.
pub open spec fn plain_char(c: char) -> bool {
    !is_whitespace_spec(c) && c != '\'' && c != '"' && c != '\\' && !single_op(c)
}

/// The finished words and the word in progress after reading `s` left to
/// right, a whitespace character ending the word in progress.
pub open spec fn ws_scan(s: Seq<char>) -> (Seq<Seq<char>>, Seq<char>)
    decreases s.len(),
{
    if s.len() == 0 {
        (Seq::empty(), Seq::empty())
    } else {
        let (t, c) = ws_scan(s.drop_last());
        if is_whitespace_spec(s.last()) {
            (flush(t, c), Seq::empty())
        } else {
            (t, c.push(s.last()))
        }
    }
}

/// The words of `s` as whitespace separates them.
pub open spec fn ws_words(s: Seq<char>) -> Seq<Seq<char>> {
    flush(ws_scan(s).0, ws_scan(s).1)
}

spec fn ws_state(p: Seq<char>) -> TokState {
    TokState { tokens: ws_scan(p).0, cur: ws_scan(p).1, quote: None, escaped: false }
}

proof fn lemma_ws_step(s: Seq<char>, k: int)
    requires
        0 <= k < s.len(),
        forall|i: int| 0 <= i < s.len() ==> plain_char(#[trigger] s[i]) || is_whitespace_spec(s[i]),
    ensures
        tok_run(s, k, ws_state(s.take(k))) == tok_run(s, k + 1, ws_state(s.take(k + 1))),
{
    let c = s[k];
    assert(plain_char(c) || is_whitespace_spec(c));
    if k + 1 < s.len() {
        assert(plain_char(s[k + 1]) || is_whitespace_spec(s[k + 1]));
    }
    assert(two_char_op(s, k).is_none());
    assert(s.take(k + 1).drop_last() =~= s.take(k));
    assert(s.take(k + 1).last() == c);
}

proof fn lemma_ws_prefix(s: Seq<char>, k: int)
    requires
        0 <= k <= s.len(),
        forall|i: int| 0 <= i < s.len() ==> plain_char(#[trigger] s[i]) || is_whitespace_spec(s[i]),
    ensures
        tok_run(s, 0, tok_init()) == tok_run(s, k, ws_state(s.take(k))),
    decreases k,
{
    if k == 0 {
        assert(s.take(0) =~= Seq::<char>::empty());
        assert(ws_state(s.take(0)) == tok_init());
    } else {
        lemma_ws_prefix(s, k - 1);
        lemma_ws_step(s, k - 1);
    }
}

/// The tokenizer splits a line of plain words on whitespace: where no
/// quote, backslash or operator character occurs, the tokens are exactly
/// the words that whitespace separates.
pub proof fn lemma_tokenize_splits_on_whitespace(s: Seq<char>)
    requires
        forall|i: int| 0 <= i < s.len() ==> plain_char(#[trigger] s[i]) || is_whitespace_spec(s[i]),
    ensures
        tokenize_spec(s) == Ok::<Seq<Seq<char>>, ShellError>(ws_words(s)),
{
    lemma_ws_prefix(s, s.len() as int);
    assert(s.take(s.len() as int) =~= s);
}

/// Splits a command line into tokens.
pub fn tokenize(input: &[char]) -> (r: Result<Vec<Vec<char>>, ShellError>)
    ensures
        match r {
            Ok(t) => tokenize_spec(input@) == Ok::<Seq<Seq<char>>, ShellError>(words(t@)),
            Err(e) => tokenize_spec(input@) == Err::<Seq<Seq<char>>, ShellError>(e),
        },
{
    let ghost s = input@;
    let mut tokens: Vec<Vec<char>> = Vec::new();
    let mut cur: Vec<char> = Vec::new();
    let mut quote: Option<char> = None;
    let mut escaped = false;
    let mut i: usize = 0;
    proof {
        assert(words(tokens@) =~= Seq::<Seq<char>>::empty());
    }
    while i < input.len()
        invariant
            s == input@,
            i <= s.len(),
            tok_run(s, 0, tok_init()) == tok_run(
                s,
                i as int,
                TokState { tokens: words(tokens@), cur: cur@, quote, escaped },
            ),
        decreases s.len() - i,
    {
        let c = input[i];
        let ghost st = TokState { tokens: words(tokens@), cur: cur@, quote, escaped };
        if escaped {
            cur.push(c);
            escaped = false;
            i = i + 1;
        } else if c == '\\' {
            escaped = true;
            i = i + 1;
        } else if quote.is_some() {
            if c == quote.unwrap() {
                quote = None;
            } else {
                cur.push(c);
            }
            i = i + 1;
        } else {
            let next: Option<char> = if i + 1 < input.len() { Some(input[i + 1]) } else { None };
            let op: Option<Vec<char>> = match next {
                Some(d) => {
                    if c == '&' && d == '&' {
                        Some(chars_of2('&', '&'))
                    } else if c == '|' && d == '|' {
                        Some(chars_of2('|', '|'))
                    } else if c == '>' && d == '>' {
                        Some(chars_of2('>', '>'))
                    } else if c == '2' && d == '>' {
                        Some(chars_of2('2', '>'))
                    } else {
                        None
                    }
                },
                None => None,
            };
            proof {
                match &op {
                    Some(o) => assert(two_char_op(s, i as int) == Some(o@)),
                    None => assert(two_char_op(s, i as int).is_none()),
                }
            }
            match op {
                Some(o) => {
                    flush_word(&mut tokens, &mut cur);
                    proof {
                        lemma_words_push(tokens@, o);
                    }
                    tokens.push(o);
                    i = i + 2;
                    proof {
                        assert(cur@ =~= Seq::<char>::empty());
                    }
                },
                None => {
                    if c == '\'' || c == '"' {
                        quote = Some(c);
                    } else if c == ';' || c == '|' || c == '&' || c == '<' || c == '>' {
                        flush_word(&mut tokens, &mut cur);
                        let mut o: Vec<char> = Vec::new();
                        o.push(c);
                        proof {
                            assert(o@ =~= seq![c]);
                            lemma_words_push(tokens@, o);
                        }
                        tokens.push(o);
                        proof {
                            assert(cur@ =~= Seq::<char>::empty());
                        }
                    } else if is_whitespace(c) {
                        flush_word(&mut tokens, &mut cur);
                        proof {
                            assert(cur@ =~= Seq::<char>::empty());
                        }
                    } else {
                        cur.push(c);
                    }
                    i = i + 1;
                },
            }
        }
    }
    if escaped || quote.is_some() {
        return Err(ShellError::Unbalanced);
    }
    flush_word(&mut tokens, &mut cur);
    Ok(tokens)
}

// ---------------------------------------------------------------- commands

/// How a command list entry depends on the one before it.
#[derive(Copy, Clone, Debug, PartialEq, Eq, Structural)]
pub enum Connector {
    /// Runs unconditionally (first command, or after `;` or `&`).
    Always,
    /// Runs when the previous command succeeded (`&&`).
    And,
    /// Runs when the previous command failed (`||`).
    Or,
}

/// One program of a pipeline with its redirections.
pub struct Stage {
    pub prog: Vec<char>,
    pub args: Vec<Vec<char>>,
    pub input: Option<Vec<char>>,
    pub output: Option<Vec<char>>,
    pub stderr: Option<Vec<char>>,
    /// `>>`: the output file is appended to.
    pub append: bool,
}

pub struct StageView {
    pub prog: Seq<char>,
    pub args: Seq<Seq<char>>,
    pub input: Option<Seq<char>>,
    pub output: Option<Seq<char>>,
    pub stderr: Option<Seq<char>>,
    pub append: bool,
}

pub open spec fn opt_view(o: Option<Vec<char>>) -> Option<Seq<char>> {
    match o {
        Some(v) => Some(v@),
        None => None,
    }
}

impl View for Stage {
    type V = StageView;

    open spec fn view(&self) -> StageView {
        StageView {
            prog: self.prog@,
            args: words(self.args@),
            input: opt_view(self.input),
            output: opt_view(self.output),
            stderr: opt_view(self.stderr),
            append: self.append,
        }
    }
}

pub open spec fn empty_stage() -> StageView {
    StageView { prog: Seq::empty(), args: Seq::empty(), input: None, output: None, stderr: None, append: false }
}

impl Stage {
    pub fn new() -> (s: Self)
        ensures
            s@ == empty_stage(),
    {
        let s = Stage { prog: Vec::new(), args: Vec::new(), input: None, output: None, stderr: None, append: false };
        assert(s@.args =~= Seq::<Seq<char>>::empty());
        s
    }
}

/// A pipeline to run, with how it is joined to the one before.
pub struct Command {
    pub stages: Vec<Stage>,
    pub background: bool,
    pub connector: Connector,
}

pub struct CommandView {
    pub stages: Seq<StageView>,
    pub background: bool,
    pub connector: Connector,
}

pub open spec fn stages_view(v: Seq<Stage>) -> Seq<StageView> {
    v.map_values(|s: Stage| s@)
}

impl View for Command {
    type V = CommandView;

    open spec fn view(&self) -> CommandView {
        CommandView { stages: stages_view(self.stages@), background: self.background, connector: self.connector }
    }
}

pub open spec fn commands_view(v: Seq<Command>) -> Seq<CommandView> {
    v.map_values(|c: Command| c@)
}

/// State of the parser between two tokens.
pub struct ParseState {
    pub commands: Seq<CommandView>,
    pub stages: Seq<StageView>,
    pub stage: StageView,
    pub pending: Connector,
}

pub open spec fn parse_init() -> ParseState {
    ParseState { commands: Seq::empty(), stages: Seq::empty(), stage: empty_stage(), pending: Connector::Always }
}

pub open spec fn is_separator(t: Seq<char>) -> bool {
    t == seq![';'] || t == seq!['&'] || t == seq!['&', '&'] || t == seq!['|', '|']
}

pub open spec fn is_redirect(t: Seq<char>) -> bool {
    t == seq!['<'] || t == seq!['>'] || t == seq!['>', '>'] || t == seq!['2', '>']
}

/// The connector that a separator puts before the next command.
pub open spec fn connector_after(t: Seq<char>) -> Connector {
    if t == seq!['&', '&'] {
        Connector::And
    } else if t == seq!['|', '|'] {
        Connector::Or
    } else {
        Connector::Always
    }
}

/// Stage `st` with the redirection `op` to `file`.
pub open spec fn redirect(st: StageView, op: Seq<char>, file: Seq<char>) -> StageView {
    if op == seq!['<'] {
        StageView { input: Some(file), ..st }
    } else if op == seq!['>'] {
        StageView { output: Some(file), append: false, ..st }
    } else if op == seq!['>', '>'] {
        StageView { output: Some(file), append: true, ..st }
    } else {
        StageView { stderr: Some(file), ..st }
    }
}

/// Stage `st` with the word `w`: its program when it has none, else one more argument.
pub open spec fn add_word(st: StageView, w: Seq<char>) -> StageView {
    if st.prog.len() == 0 {
        StageView { prog: w, ..st }
    } else {
        StageView { args: st.args.push(w), ..st }
    }
}

/// The parser run over tokens `ts` from position `i` in state `p`.
pub open spec fn parse_run(ts: Seq<Seq<char>>, i: int, p: ParseState) -> Result<ParseState, ShellError>
    decreases ts.len() - i,
{
    if i < 0 || i >= ts.len() {
        Ok(p)
    } else {
        let t = ts[i];
        if is_separator(t) {
            if p.stage.prog.len() == 0 {
                Err(ShellError::EmptyCommand)
            } else {
                let cmd = CommandView { stages: p.stages.push(p.stage), background: t == seq!['&'], connector: p.pending };
                parse_run(
                    ts,
                    i + 1,
                    ParseState { commands: p.commands.push(cmd), stages: Seq::empty(), stage: empty_stage(), pending: connector_after(t) },
                )
            }
        } else if t == seq!['|'] {
            if p.stage.prog.len() == 0 {
                Err(ShellError::EmptyCommand)
            } else {
                parse_run(ts, i + 1, ParseState { stages: p.stages.push(p.stage), stage: empty_stage(), ..p })
            }
        } else if is_redirect(t) {
            if i + 1 >= ts.len() {
                Err(ShellError::MissingRedirectTarget)
            } else {
                parse_run(ts, i + 2, ParseState { stage: redirect(p.stage, t, ts[i + 1]), ..p })
            }
        } else {
            parse_run(ts, i + 1, ParseState { stage: add_word(p.stage, t), ..p })
        }
    }
}

/// The commands of the token list `ts`.
pub open spec fn parse_tokens_spec(ts: Seq<Seq<char>>) -> Result<Seq<CommandView>, ShellError> {
    match parse_run(ts, 0, parse_init()) {
        Err(e) => Err(e),
        Ok(p) => {
            if p.stage.prog.len() == 0 && p.stages.len() > 0 {
                Err(ShellError::EmptyCommand)
            } else {
                let stages = if p.stage.prog.len() > 0 { p.stages.push(p.stage) } else { p.stages };
                if stages.len() > 0 {
                    Ok(p.commands.push(CommandView { stages, background: false, connector: p.pending }))
                } else {
                    Ok(p.commands)
                }
            }
        },
    }
}

/// The commands of a command line.
pub open spec fn parse_command_spec(s: Seq<char>) -> Result<Seq<CommandView>, ShellError> {
    match tokenize_spec(s) {
        Err(e) => Err(e),
        Ok(ts) => parse_tokens_spec(ts),
    }
}

fn word_is1(t: &Vec<char>, a: char) -> (b: bool)
    ensures
        b == (t@ == seq![a]),
{
    let r = t.len() == 1 && t[0] == a;
    proof {
        if r {
            assert(t@ =~= seq![a]);
        }
    }
    r
}

fn word_is2(t: &Vec<char>, a: char, b: char) -> (r: bool)
    ensures
        r == (t@ == seq![a, b]),
{
    let r = t.len() == 2 && t[0] == a && t[1] == b;
    proof {
        if r {
            assert(t@ =~= seq![a, b]);
        }
    }
    r
}

fn clone_word(w: &Vec<char>) -> (c: Vec<char>)
    ensures
        c@ == w@,
{
    let mut c: Vec<char> = Vec::new();
    let mut k: usize = 0;
    while k < w.len()
        invariant
            k <= w@.len(),
            c@ == w@.take(k as int),
        decreases w@.len() - k,
    {
        c.push(w[k]);
        assert(w@.take(k + 1) =~= w@.take(k as int).push(w@[k as int]));
        k = k + 1;
    }
    assert(w@.take(k as int) =~= w@);
    c
}

/// Ends the current stage into the pipeline being built; `EmptyCommand`
/// when it has no program.
pub fn finish_stage(stages: &mut Vec<Stage>, stage: &mut Stage) -> (r: Result<(), ShellError>)
    ensures
        old(stage)@.prog.len() == 0 ==> r == Err::<(), ShellError>(ShellError::EmptyCommand)
            && stages_view(final(stages)@) == stages_view(old(stages)@) && final(stage)@ == old(stage)@,
        old(stage)@.prog.len() > 0 ==> r == Ok::<(), ShellError>(())
            && stages_view(final(stages)@) == stages_view(old(stages)@).push(old(stage)@)
            && final(stage)@ == empty_stage(),
{
    if stage.prog.len() == 0 {
        return Err(ShellError::EmptyCommand);
    }
    let mut taken = Stage::new();
    std::mem::swap(&mut taken, stage);
    let ghost before = stages@;
    stages.push(taken);
    assert(stages_view(stages@) =~= stages_view(before).push(taken@));
    Ok(())
}

/// Parses a token list into commands.
pub fn parse_tokens(tokens: &Vec<Vec<char>>) -> (r: Result<Vec<Command>, ShellError>)
    ensures
        match r {
            Ok(cs) => parse_tokens_spec(words(tokens@)) == Ok::<Seq<CommandView>, ShellError>(commands_view(cs@)),
            Err(e) => parse_tokens_spec(words(tokens@)) == Err::<Seq<CommandView>, ShellError>(e),
        },
{
    let ghost ts = words(tokens@);
    let mut commands: Vec<Command> = Vec::new();
    let mut stages: Vec<Stage> = Vec::new();
    let mut stage = Stage::new();
    let mut pending = Connector::Always;
    let mut i: usize = 0;
    proof {
        assert(commands_view(commands@) =~= Seq::<CommandView>::empty());
        assert(stages_view(stages@) =~= Seq::<StageView>::empty());
    }
    while i < tokens.len()
        invariant
            ts == words(tokens@),
            i <= tokens@.len(),
            parse_run(ts, 0, parse_init()) == parse_run(
                ts,
                i as int,
                ParseState { commands: commands_view(commands@), stages: stages_view(stages@), stage: stage@, pending },
            ),
        decreases tokens@.len() - i,
    {
        let t = &tokens[i];
        assert(ts[i as int] == t@);
        let is_semi = word_is1(t, ';');
        let is_amp = word_is1(t, '&');
        let is_and = word_is2(t, '&', '&');
        let is_or = word_is2(t, '|', '|');
        if is_semi || is_amp || is_and || is_or {
            let ghost p_stage = stage@;
            let ghost p_stages = stages_view(stages@);
            match finish_stage(&mut stages, &mut stage) {
                Err(e) => return Err(e),
                Ok(()) => {},
            }
            let mut done: Vec<Stage> = Vec::new();
            std::mem::swap(&mut done, &mut stages);
            let cmd = Command { stages: done, background: is_amp, connector: pending };
            let ghost before = commands@;
            commands.push(cmd);
            proof {
                assert(commands_view(commands@) =~= commands_view(before).push(cmd@));
                assert(stages_view(stages@) =~= Seq::<StageView>::empty());
            }
            pending = if is_and {
                Connector::And
            } else if is_or {
                Connector::Or
            } else {
                Connector::Always
            };
            i = i + 1;
        } else if word_is1(t, '|') {
            match finish_stage(&mut stages, &mut stage) {
                Err(e) => return Err(e),
                Ok(()) => {},
            }
            i = i + 1;
        } else if word_is1(t, '<') || word_is1(t, '>') || word_is2(t, '>', '>') || word_is2(t, '2', '>') {
            if i + 1 >= tokens.len() {
                return Err(ShellError::MissingRedirectTarget);
            }
            let file = clone_word(&tokens[i + 1]);
            assert(ts[i + 1] == file@);
            if word_is1(t, '<') {
                stage.input = Some(file);
            } else if word_is1(t, '>') {
                stage.output = Some(file);
                stage.append = false;
            } else if word_is2(t, '>', '>') {
                stage.output = Some(file);
                stage.append = true;
            } else {
                stage.stderr = Some(file);
            }
            i = i + 2;
        } else {
            let w = clone_word(t);
            if stage.prog.len() == 0 {
                stage.prog = w;
            } else {
                let ghost a0 = stage.args@;
                stage.args.push(w);
                proof {
                    lemma_words_push(a0, w);
                }
            }
            i = i + 1;
        }
    }
    if stage.prog.len() > 0 || stages.len() > 0 {
        match finish_stage(&mut stages, &mut stage) {
            Err(e) => return Err(e),
            Ok(()) => {},
        }
    }
    if stages.len() > 0 {
        let cmd = Command { stages, background: false, connector: pending };
        let ghost before = commands@;
        commands.push(cmd);
        assert(commands_view(commands@) =~= commands_view(before).push(cmd@));
    }
    Ok(commands)
}

/// Parses a command line into commands.
pub fn parse_command(input: &[char]) -> (r: Result<Vec<Command>, ShellError>)
    ensures
        match r {
            Ok(cs) => parse_command_spec(input@) == Ok::<Seq<CommandView>, ShellError>(commands_view(cs@)),
            Err(e) => parse_command_spec(input@) == Err::<Seq<CommandView>, ShellError>(e),
        },
{
    let tokens = match tokenize(input) {
        Ok(t) => t,
        Err(e) => return Err(e),
    };
    parse_tokens(&tokens)
}

// ---------------------------------------------------------------- running commands

/// `a` and `b` hold the same characters.
pub fn chars_eq(a: &[char], b: &[char]) -> (r: bool)
    ensures
        r == (a@ == b@),
{
    if a.len() != b.len() {
        return false;
    }
    let mut i: usize = 0;
    while i < a.len()
        invariant
            i <= a@.len(),
            a@.len() == b@.len(),
            forall|j: int| 0 <= j < i ==> a@[j] == b@[j],
        decreases a@.len() - i,
    {
        if a[i] != b[i] {
            return false;
        }
        i = i + 1;
    }
    assert(a@ =~= b@);
    true
}

/// A command the shell runs itself.
#[derive(Copy, Clone, Debug, PartialEq, Eq, Structural)]
pub enum Builtin {
    Exit,
    Echo,
    Cd,
    Pwd,
    History,
    Jobs,
    Fg,
    Bg,
    Kill,
    Help,
    Clear,
}

pub open spec fn builtin_spec(p: Seq<char>) -> Option<Builtin> {
    if p == seq!['e', 'x', 'i', 't'] {
        Some(Builtin::Exit)
    } else if p == seq!['e', 'c', 'h', 'o'] {
        Some(Builtin::Echo)
    } else if p == seq!['c', 'd'] {
        Some(Builtin::Cd)
    } else if p == seq!['p', 'w', 'd'] {
        Some(Builtin::Pwd)
    } else if p == seq!['h', 'i', 's', 't', 'o', 'r', 'y'] {
        Some(Builtin::History)
    } else if p == seq!['j', 'o', 'b', 's'] {
        Some(Builtin::Jobs)
    } else if p == seq!['f', 'g'] {
        Some(Builtin::Fg)
    } else if p == seq!['b', 'g'] {
        Some(Builtin::Bg)
    } else if p == seq!['k', 'i', 'l', 'l'] {
        Some(Builtin::Kill)
    } else if p == seq!['h', 'e', 'l', 'p'] {
        Some(Builtin::Help)
    } else if p == seq!['c', 'l', 'e', 'a', 'r'] {
        Some(Builtin::Clear)
    } else {
        None
    }
}

/// The builtin a program name names, if any.
pub fn builtin_of(prog: &[char]) -> (b: Option<Builtin>)
    ensures
        b == builtin_spec(prog@),
{
    let exit = ['e', 'x', 'i', 't'];
    let echo = ['e', 'c', 'h', 'o'];
    let cd = ['c', 'd'];
    let pwd = ['p', 'w', 'd'];
    let history = ['h', 'i', 's', 't', 'o', 'r', 'y'];
    let jobs = ['j', 'o', 'b', 's'];
    let fg = ['f', 'g'];
    let bg = ['b', 'g'];
    let kill = ['k', 'i', 'l', 'l'];
    let help = ['h', 'e', 'l', 'p'];
    let clear = ['c', 'l', 'e', 'a', 'r'];
    assert(exit@ =~= seq!['e', 'x', 'i', 't']);
    assert(echo@ =~= seq!['e', 'c', 'h', 'o']);
    assert(cd@ =~= seq!['c', 'd']);
    assert(pwd@ =~= seq!['p', 'w', 'd']);
    assert(history@ =~= seq!['h', 'i', 's', 't', 'o', 'r', 'y']);
    assert(jobs@ =~= seq!['j', 'o', 'b', 's']);
    assert(fg@ =~= seq!['f', 'g']);
    assert(bg@ =~= seq!['b', 'g']);
    assert(kill@ =~= seq!['k', 'i', 'l', 'l']);
    assert(help@ =~= seq!['h', 'e', 'l', 'p']);
    assert(clear@ =~= seq!['c', 'l', 'e', 'a', 'r']);
    if chars_eq(prog, &exit) {
        Some(Builtin::Exit)
    } else if chars_eq(prog, &echo) {
        Some(Builtin::Echo)
    } else if chars_eq(prog, &cd) {
        Some(Builtin::Cd)
    } else if chars_eq(prog, &pwd) {
        Some(Builtin::Pwd)
    } else if chars_eq(prog, &history) {
        Some(Builtin::History)
    } else if chars_eq(prog, &jobs) {
        Some(Builtin::Jobs)
    } else if chars_eq(prog, &fg) {
        Some(Builtin::Fg)
    } else if chars_eq(prog, &bg) {
        Some(Builtin::Bg)
    } else if chars_eq(prog, &kill) {
        Some(Builtin::Kill)
    } else if chars_eq(prog, &help) {
        Some(Builtin::Help)
    } else if chars_eq(prog, &clear) {
        Some(Builtin::Clear)
    } else {
        None
    }
}

/// The builtins that can run as a stage of a pipeline.
pub open spec fn pipeline_builtin_spec(p: Seq<char>) -> bool {
    builtin_spec(p) == Some(Builtin::Echo) || builtin_spec(p) == Some(Builtin::Pwd) || builtin_spec(p) == Some(
        Builtin::History,
    ) || builtin_spec(p) == Some(Builtin::Help) || builtin_spec(p) == Some(Builtin::Clear)
}

pub fn is_pipeline_builtin(prog: &[char]) -> (b: bool)
    ensures
        b == pipeline_builtin_spec(prog@),
{
    match builtin_of(prog) {
        Some(Builtin::Echo) | Some(Builtin::Pwd) | Some(Builtin::History) | Some(Builtin::Help) | Some(
            Builtin::Clear,
        ) => true,
        _ => false,
    }
}

/// How a command runs: a builtin when it is a single stage naming one,
/// else as a pipeline of programs.
pub open spec fn execute_spec(cmd: CommandView) -> Option<Builtin> {
    if cmd.stages.len() == 1 { builtin_spec(cmd.stages[0].prog) } else { None }
}

pub fn execute_plan(cmd: &Command) -> (b: Option<Builtin>)
    ensures
        b == execute_spec(cmd@),
{
    if cmd.stages.len() == 1 {
        builtin_of(cmd.stages[0].prog.as_slice())
    } else {
        None
    }
}

/// Whether a command with connector `c` runs after one that ended with `prev_status`.
pub fn should_run(c: Connector, prev_status: i32) -> (b: bool)
    ensures
        b == (match c {
            Connector::Always => true,
            Connector::And => prev_status == 0,
            Connector::Or => prev_status != 0,
        }),
{
    match c {
        Connector::Always => true,
        Connector::And => prev_status == 0,
        Connector::Or => prev_status != 0,
    }
}

/// The process group that stage `i` of a pipeline joins, as the process
/// `pid` sees it (0 inside the stage's own process, which has not learnt
/// its pid): the first stage leads a group of its own, named by its pid;
/// the others join the group `leader` of the first.
pub fn stage_pgid(i: usize, leader: usize, pid: usize) -> (g: usize)
    ensures
        g == (if i == 0 { pid } else { leader }),
{
    if i == 0 {
        pid
    } else {
        leader
    }
}

/// Which pipes stage `i` of `n` reads from and writes to, by pipe index:
/// each stage but the first reads the pipe before it, each but the last
/// writes the pipe after it.
pub fn stage_pipes(i: usize, n: usize) -> (r: (Option<usize>, Option<usize>))
    requires
        i < n,
    ensures
        r.0 == (if i > 0 { Some((i - 1) as usize) } else { None::<usize> }),
        r.1 == (if i + 1 < n { Some(i) } else { None::<usize> }),
{
    let read = if i > 0 { Some(i - 1) } else { None };
    let write = if i + 1 < n { Some(i) } else { None };
    (read, write)
}

/// `s` with a NUL terminator, as the kernel reads strings.
pub fn nul(s: &[char]) -> (r: Vec<char>)
    ensures
        r@ == s@.push('\0'),
{
    let mut r: Vec<char> = Vec::new();
    let mut k: usize = 0;
    while k < s.len()
        invariant
            k <= s@.len(),
            r@ == s@.take(k as int),
        decreases s@.len() - k,
    {
        r.push(s[k]);
        assert(s@.take(k + 1) =~= s@.take(k as int).push(s@[k as int]));
        k = k + 1;
    }
    r.push('\0');
    assert(r@ =~= s@.push('\0'));
    r
}

/// The argument vector a stage is executed with: its program, then its
/// arguments, each NUL-terminated.
pub fn exec_args(stage: &Stage) -> (r: Vec<Vec<char>>)
    ensures
        r@.len() == stage.args@.len() + 1,
        r@[0]@ == stage.prog@.push('\0'),
        forall|k: int| 0 <= k < stage.args@.len() ==> (#[trigger] r@[k + 1])@ == stage.args@[k]@.push('\0'),
{
    let mut r: Vec<Vec<char>> = Vec::new();
    r.push(nul(stage.prog.as_slice()));
    let mut k: usize = 0;
    while k < stage.args.len()
        invariant
            k <= stage.args@.len(),
            r@.len() == k + 1,
            r@[0]@ == stage.prog@.push('\0'),
            forall|j: int| 0 <= j < k ==> (#[trigger] r@[j + 1])@ == stage.args@[j]@.push('\0'),
        decreases stage.args@.len() - k,
    {
        r.push(nul(stage.args[k].as_slice()));
        k = k + 1;
    }
    r
}

/// How waiting for one foreground process ended.
#[derive(Copy, Clone, Debug, PartialEq, Eq, Structural)]
pub enum WaitResult {
    Reaped(i32),
    Stopped,
}

/// The exit code of the last reaped process, and whether any stopped.
pub open spec fn wait_summary(rs: Seq<WaitResult>) -> (i32, bool)
    decreases rs.len(),
{
    if rs.len() == 0 {
        (0, false)
    } else {
        let (code, stopped) = wait_summary(rs.drop_last());
        match rs.last() {
            WaitResult::Reaped(c) => (c, stopped),
            WaitResult::Stopped => (code, true),
        }
    }
}

/// The status of a foreground pipeline whose processes ended as `rs`: 1
/// when one of them stopped (the job is kept as stopped), else the exit
/// code of the last one reaped. The second part says whether one stopped.
pub fn pipeline_status(rs: &[WaitResult]) -> (r: (i32, bool))
    ensures
        r.1 == wait_summary(rs@).1,
        r.0 == (if wait_summary(rs@).1 { 1 } else { wait_summary(rs@).0 }),
{
    let mut code: i32 = 0;
    let mut stopped = false;
    let mut k: usize = 0;
    while k < rs.len()
        invariant
            k <= rs@.len(),
            (code, stopped) == wait_summary(rs@.take(k as int)),
        decreases rs@.len() - k,
    {
        assert(rs@.take(k + 1).drop_last() =~= rs@.take(k as int));
        match rs[k] {
            WaitResult::Reaped(c) => code = c,
            WaitResult::Stopped => stopped = true,
        }
        k = k + 1;
    }
    assert(rs@.take(k as int) =~= rs@);
    if stopped {
        (1, true)
    } else {
        (code, false)
    }
}

/// The words of `args` separated by single spaces.
pub open spec fn join_spaced(args: Seq<Seq<char>>) -> Seq<char>
    decreases args.len(),
{
    if args.len() == 0 {
        Seq::empty()
    } else if args.len() == 1 {
        args[0]
    } else {
        join_spaced(args.drop_last()) + seq![' '] + args.last()
    }
}

fn push_chars(dst: &mut Vec<char>, src: &[char])
    ensures
        final(dst)@ == old(dst)@ + src@,
{
    let mut k: usize = 0;
    while k < src.len()
        invariant
            k <= src@.len(),
            dst@ == old(dst)@ + src@.take(k as int),
        decreases src@.len() - k,
    {
        dst.push(src[k]);
        assert(src@.take(k + 1) =~= src@.take(k as int).push(src@[k as int]));
        assert(dst@ =~= old(dst)@ + src@.take(k + 1));
        k = k + 1;
    }
    assert(src@.take(k as int) =~= src@);
}

/// What `echo` prints: its arguments separated by spaces.
pub fn echo_text(args: &Vec<Vec<char>>) -> (r: Vec<char>)
    ensures
        r@ == join_spaced(words(args@)),
{
    let mut s: Vec<char> = Vec::new();
    let mut i: usize = 0;
    while i < args.len()
        invariant
            i <= args@.len(),
            s@ == join_spaced(words(args@.take(i as int))),
        decreases args@.len() - i,
    {
        let ghost before = s@;
        if i > 0 {
            s.push(' ');
        }
        push_chars(&mut s, args[i].as_slice());
        proof {
            let w = words(args@.take(i + 1));
            assert(w.drop_last() =~= words(args@.take(i as int)));
            assert(w.last() == args@[i as int]@);
            if i == 0 {
                assert(s@ =~= args@[0]@);
            } else {
                assert(s@ =~= before + seq![' '] + args@[i as int]@);
            }
        }
        i = i + 1;
    }
    assert(args@.take(i as int) =~= args@);
    s
}

/// How the shell shows one stage: program, arguments, `< input`, `> output`.
pub open spec fn stage_text(st: StageView) -> Seq<char> {
    let with_args = if st.args.len() == 0 { st.prog } else { st.prog + seq![' '] + join_spaced(st.args) };
    let with_in = match st.input {
        Some(f) => with_args + seq![' ', '<', ' '] + f,
        None => with_args,
    };
    match st.output {
        Some(f) => with_in + seq![' ', '>', ' '] + f,
        None => with_in,
    }
}

pub open spec fn stages_text(sts: Seq<StageView>) -> Seq<char>
    decreases sts.len(),
{
    if sts.len() == 0 {
        Seq::empty()
    } else if sts.len() == 1 {
        stage_text(sts[0])
    } else {
        stages_text(sts.drop_last()) + seq![' ', '|', ' '] + stage_text(sts.last())
    }
}

/// How the shell shows a command in its job list.
pub open spec fn command_text(c: CommandView) -> Seq<char> {
    if c.background { stages_text(c.stages) + seq![' ', '&'] } else { stages_text(c.stages) }
}

fn stage_string(st: &Stage) -> (r: Vec<char>)
    ensures
        r@ == stage_text(st@),
{
    let mut s: Vec<char> = Vec::new();
    push_chars(&mut s, st.prog.as_slice());
    if st.args.len() > 0 {
        s.push(' ');
        let a = echo_text(&st.args);
        push_chars(&mut s, a.as_slice());
    }
    assert(s@ =~= (if st@.args.len() == 0 { st@.prog } else { st@.prog + seq![' '] + join_spaced(st@.args) }));
    let ghost s1 = s@;
    match &st.input {
        Some(f) => {
            s.push(' ');
            s.push('<');
            s.push(' ');
            push_chars(&mut s, f.as_slice());
            assert(s@ =~= s1 + seq![' ', '<', ' '] + f@);
        },
        None => {},
    }
    let ghost s2 = s@;
    match &st.output {
        Some(f) => {
            s.push(' ');
            s.push('>');
            s.push(' ');
            push_chars(&mut s, f.as_slice());
            assert(s@ =~= s2 + seq![' ', '>', ' '] + f@);
        },
        None => {},
    }
    s
}

/// The text of a command as the job list shows it.
pub fn command_string(cmd: &Command) -> (r: Vec<char>)
    ensures
        r@ == command_text(cmd@),
{
    let mut s: Vec<char> = Vec::new();
    let mut i: usize = 0;
    let ghost sv = stages_view(cmd.stages@);
    while i < cmd.stages.len()
        invariant
            sv == stages_view(cmd.stages@),
            i <= cmd.stages@.len(),
            s@ == stages_text(sv.take(i as int)),
        decreases cmd.stages@.len() - i,
    {
        let ghost before = s@;
        if i > 0 {
            s.push(' ');
            s.push('|');
            s.push(' ');
        }
        let t = stage_string(&cmd.stages[i]);
        push_chars(&mut s, t.as_slice());
        proof {
            let w = sv.take(i + 1);
            assert(w.drop_last() =~= sv.take(i as int));
            assert(w.last() == cmd.stages@[i as int]@);
            if i == 0 {
                assert(s@ =~= stage_text(w[0]));
            } else {
                assert(s@ =~= before + seq![' ', '|', ' '] + stage_text(w.last()));
            }
        }
        i = i + 1;
    }
    assert(sv.take(i as int) =~= sv);
    if cmd.background {
        s.push(' ');
        s.push('&');
        assert(s@ =~= stages_text(sv) + seq![' ', '&']);
    }
    s
}

// ---------------------------------------------------------------- jobs and builtins

pub const SIGINT_BITS: i32 = 4;
pub const SIGILL_BITS: i32 = 0x10;
pub const SIGABRT_BITS: i32 = 0x40;
pub const SIGFPE_BITS: i32 = 0x100;
pub const SIGSEGV_BITS: i32 = 0x800;
pub const SIGTSTP_BITS: i32 = 0x10_0000;
pub const SIGCONT_BITS: i32 = 0x20_0000;

#[derive(Copy, Clone, Debug, PartialEq, Eq, Structural)]
pub enum JobStatus {
    Running,
    Stopped,
    Done(i32),
}

/// A pipeline the shell keeps track of.
pub struct Job {
    pub jid: usize,
    pub pgid: usize,
    pub pids: Vec<usize>,
    pub cmdline: Vec<char>,
    pub status: JobStatus,
}

pub struct Shell {
    pub history: VecDeque<Vec<u8>>,
    pub jobs: Vec<Job>,
    pub next_jid: usize,
    pub shell_pgrp: usize,
    pub history_cleared: bool,
}

impl Shell {
    /// Job ids are distinct and below the next one handed out.
    pub open spec fn wf(&self) -> bool {
        &&& forall|i: int| 0 <= i < self.jobs@.len() ==> (#[trigger] self.jobs@[i]).jid < self.next_jid
        &&& forall|i: int, j: int| 0 <= i < j < self.jobs@.len() ==> (#[trigger] self.jobs@[i]).jid < (#[trigger] self.jobs@[j]).jid
    }

    pub fn new(shell_pgrp: usize) -> (sh: Self)
        ensures
            sh.wf(),
            sh.history@.len() == 0,
            sh.jobs@.len() == 0,
            sh.next_jid == 1,
            sh.shell_pgrp == shell_pgrp,
            !sh.history_cleared,
    {
        Shell { history: VecDeque::new(), jobs: Vec::new(), next_jid: 1, shell_pgrp, history_cleared: false }
    }

    /// Enters a command line into the history.
    pub fn add_history(&mut self, line: &[u8])
        ensures
            lines_view(final(self).history@) == history_add_spec(lines_view(old(self).history@), line@),
            final(self).jobs@ == old(self).jobs@,
            final(self).next_jid == old(self).next_jid,
            final(self).shell_pgrp == old(self).shell_pgrp,
            final(self).history_cleared == old(self).history_cleared,
    {
        history_add(&mut self.history, line);
    }

    /// Starts tracking a job with the next job id, which it returns.
    pub fn register_job(&mut self, pgid: usize, pids: Vec<usize>, cmdline: Vec<char>, status: JobStatus) -> (jid: usize)
        requires
            old(self).wf(),
            old(self).next_jid < usize::MAX,
        ensures
            final(self).wf(),
            jid == old(self).next_jid,
            final(self).next_jid == jid + 1,
            final(self).jobs@.len() == old(self).jobs@.len() + 1,
            forall|i: int| 0 <= i < old(self).jobs@.len() ==> final(self).jobs@[i] == old(self).jobs@[i],
            ({
                let j = final(self).jobs@.last();
                j.jid == jid && j.pgid == pgid && j.pids@ == pids@ && j.cmdline@ == cmdline@ && j.status == status
            }),
            final(self).history@ == old(self).history@,
            final(self).shell_pgrp == old(self).shell_pgrp,
            final(self).history_cleared == old(self).history_cleared,
    {
        let jid = self.next_jid;
        self.next_jid = self.next_jid + 1;
        self.jobs.push(Job { jid, pgid, pids, cmdline, status });
        jid
    }

    /// `new` is `old` with the job `pgid`/`pids`/`cmdline` of status
    /// `status` added under the next job id.
    pub open spec fn job_added(
        old: Shell,
        new: Shell,
        pgid: usize,
        pids: Seq<usize>,
        cmdline: Seq<char>,
        status: JobStatus,
    ) -> bool {
        &&& new.next_jid == old.next_jid + 1
        &&& new.jobs@.len() == old.jobs@.len() + 1
        &&& forall|i: int| 0 <= i < old.jobs@.len() ==> new.jobs@[i] == old.jobs@[i]
        &&& {
            let j = new.jobs@.last();
            j.jid == old.next_jid && j.pgid == pgid && j.pids@ == pids && j.cmdline@ == cmdline && j.status == status
        }
        &&& new.history@ == old.history@
        &&& new.shell_pgrp == old.shell_pgrp
        &&& new.history_cleared == old.history_cleared
    }

    /// What is left of a pipeline that ran in process group `pgid` as
    /// `pids`: a background one is registered as a running job and gives
    /// status 0; a foreground one whose processes ended as `results` gives
    /// `pipeline_status`, and is registered as a stopped job when one of
    /// them stopped. Returns the status and the id of the job registered.
    pub fn finish_pipeline(
        &mut self,
        pgid: usize,
        pids: Vec<usize>,
        cmdline: Vec<char>,
        background: bool,
        results: &[WaitResult],
    ) -> (r: (i32, Option<usize>))
        requires
            old(self).wf(),
            old(self).next_jid < usize::MAX,
        ensures
            final(self).wf(),
            background ==> r == (0i32, Some(old(self).next_jid)) && Self::job_added(
                *old(self),
                *final(self),
                pgid,
                pids@,
                cmdline@,
                JobStatus::Running,
            ),
            !background && wait_summary(results@).1 ==> r == (1i32, Some(old(self).next_jid)) && Self::job_added(
                *old(self),
                *final(self),
                pgid,
                pids@,
                cmdline@,
                JobStatus::Stopped,
            ),
            !background && !wait_summary(results@).1 ==> r == (wait_summary(results@).0, None::<usize>) && *final(self)
                == *old(self),
    {
        if background {
            let jid = self.register_job(pgid, pids, cmdline, JobStatus::Running);
            return (0, Some(jid));
        }
        let (code, stopped) = pipeline_status(results);
        if stopped {
            let jid = self.register_job(pgid, pids, cmdline, JobStatus::Stopped);
            return (code, Some(jid));
        }
        (code, None)
    }

    /// Index of the job with id `jid`.
    pub fn position_of(&self, jid: usize) -> (r: Option<usize>)
        ensures
            match r {
                Some(i) => i < self.jobs@.len() && self.jobs@[i as int].jid == jid && forall|j: int|
                    0 <= j < i ==> self.jobs@[j].jid != jid,
                None => forall|j: int| 0 <= j < self.jobs@.len() ==> self.jobs@[j].jid != jid,
            },
    {
        let mut i: usize = 0;
        while i < self.jobs.len()
            invariant
                i <= self.jobs@.len(),
                forall|j: int| 0 <= j < i ==> self.jobs@[j].jid != jid,
            decreases self.jobs@.len() - i,
        {
            if self.jobs[i].jid == jid {
                return Some(i);
            }
            i = i + 1;
        }
        None
    }

    /// The job `fg` or `bg` acts on: the one whose id `arg` gives, or the
    /// newest job without an argument.
    pub fn find_job(&self, arg: Option<&[char]>) -> (r: Option<usize>)
        ensures
            match arg {
                None => r == (if self.jobs@.len() > 0 { Some((self.jobs@.len() - 1) as usize) } else { None::<usize> }),
                Some(a) => match parse_usize_spec(a@) {
                    None => r.is_none(),
                    Some(jid) => match r {
                        Some(i) => i < self.jobs@.len() && self.jobs@[i as int].jid == jid,
                        None => forall|j: int| 0 <= j < self.jobs@.len() ==> self.jobs@[j].jid != jid,
                    },
                },
            },
    {
        match arg {
            None => if self.jobs.len() > 0 { Some(self.jobs.len() - 1) } else { None },
            Some(a) => match parse_usize(a) {
                None => None,
                Some(jid) => self.position_of(jid),
            },
        }
    }

    /// Marks a stopped job running again (after it was sent `SIGCONT`).
    pub fn resume_job(&mut self, idx: usize)
        requires
            old(self).wf(),
            idx < old(self).jobs@.len(),
        ensures
            final(self).wf(),
            final(self).jobs@.len() == old(self).jobs@.len(),
            forall|i: int| 0 <= i < old(self).jobs@.len() && i != idx ==> final(self).jobs@[i] == old(self).jobs@[i],
            final(self).jobs@[idx as int].status == JobStatus::Running,
            final(self).jobs@[idx as int].jid == old(self).jobs@[idx as int].jid,
            final(self).jobs@[idx as int].pgid == old(self).jobs@[idx as int].pgid,
            final(self).jobs@[idx as int].pids@ == old(self).jobs@[idx as int].pids@,
            final(self).jobs@[idx as int].cmdline@ == old(self).jobs@[idx as int].cmdline@,
            final(self).next_jid == old(self).next_jid,
    {
        self.jobs[idx].status = JobStatus::Running;
    }

    /// After waiting for job `idx` in the foreground: kept as stopped when
    /// it stopped again, else forgotten.
    pub fn finish_foreground(&mut self, idx: usize, stopped_again: bool)
        requires
            old(self).wf(),
            idx < old(self).jobs@.len(),
        ensures
            final(self).wf(),
            final(self).next_jid == old(self).next_jid,
            stopped_again ==> final(self).jobs@.len() == old(self).jobs@.len() && final(self).jobs@[idx as int].status
                == JobStatus::Stopped && final(self).jobs@[idx as int].jid == old(self).jobs@[idx as int].jid
                && forall|i: int| 0 <= i < old(self).jobs@.len() && i != idx ==> final(self).jobs@[i] == old(self).jobs@[i],
            !stopped_again ==> final(self).jobs@ == old(self).jobs@.remove(idx as int),
    {
        if stopped_again {
            self.jobs[idx].status = JobStatus::Stopped;
        } else {
            self.jobs.remove(idx);
            proof {
                assert forall|i: int, j: int| 0 <= i < j < self.jobs@.len() implies (#[trigger] self.jobs@[i]).jid
                    < (#[trigger] self.jobs@[j]).jid by {
                    let oi = if i < idx { i } else { i + 1 };
                    let oj = if j < idx { j } else { j + 1 };
                    assert(old(self).jobs@[oi].jid < old(self).jobs@[oj].jid);
                }
            }
        }
    }

    /// Forgets the jobs that are done.
    pub fn drop_done_jobs(&mut self)
        requires
            old(self).wf(),
        ensures
            final(self).wf(),
            final(self).jobs@ == not_done(old(self).jobs@),
            final(self).next_jid == old(self).next_jid,
            final(self).history@ == old(self).history@,
            final(self).shell_pgrp == old(self).shell_pgrp,
            final(self).history_cleared == old(self).history_cleared,
    {
        let mut rest: Vec<Job> = Vec::new();
        std::mem::swap(&mut rest, &mut self.jobs);
        let ghost js = rest@;
        let n = rest.len();
        let mut kept: Vec<Job> = Vec::new();
        let mut k: usize = 0;
        assert(js.skip(0) =~= js);
        assert(not_done(js.take(0)) =~= Seq::<Job>::empty());
        while rest.len() > 0
            invariant
                k <= js.len(),
                n == js.len(),
                rest@ == js.skip(k as int),
                kept@ == not_done(js.take(k as int)),
                js == old(self).jobs@,
                self.next_jid == old(self).next_jid,
                self.history@ == old(self).history@,
                self.shell_pgrp == old(self).shell_pgrp,
                self.history_cleared == old(self).history_cleared,
            decreases rest@.len(),
        {
            let job = rest.remove(0);
            proof {
                assert(job == js[k as int]);
                assert(js.take(k + 1).drop_last() =~= js.take(k as int));
                assert(rest@ =~= js.skip(k + 1));
            }
            let done = match job.status {
                JobStatus::Done(_) => true,
                _ => false,
            };
            if !done {
                kept.push(job);
            }
            k = k + 1;
        }
        proof {
            assert(js.take(k as int) =~= js);
            lemma_not_done_sorted(js, self.next_jid);
        }
        self.jobs = kept;
    }
}

/// What `bg` does with the job it picked.
#[derive(Copy, Clone, Debug, PartialEq, Eq, Structural)]
pub enum BgAction {
    /// No job matches.
    NotFound,
    /// The job (by id) runs already.
    AlreadyRunning(usize),
    /// The job (by id) is done.
    AlreadyDone(usize),
    /// The stopped job at this index gets `SIGCONT` and runs on.
    Continue(usize),
}

impl Shell {
    /// What `bg [arg]` does: picks the job as `find_job` does and
    /// continues it only when it is stopped.
    pub fn bg_action(&self, arg: Option<&[char]>) -> (a: BgAction)
        requires
            self.wf(),
        ensures
            ({
                let picked = if arg is None {
                    if self.jobs@.len() > 0 { Some((self.jobs@.len() - 1) as int) } else { None }
                } else {
                    match parse_usize_spec(arg.unwrap()@) {
                        None => None,
                        Some(jid) => if exists|j: int| 0 <= j < self.jobs@.len() && self.jobs@[j].jid == jid {
                            Some(choose|j: int| 0 <= j < self.jobs@.len() && self.jobs@[j].jid == jid)
                        } else {
                            None
                        },
                    }
                };
                match picked {
                    None => a == BgAction::NotFound,
                    Some(i) => match self.jobs@[i].status {
                        JobStatus::Running => a == BgAction::AlreadyRunning(self.jobs@[i].jid),
                        JobStatus::Done(_) => a == BgAction::AlreadyDone(self.jobs@[i].jid),
                        JobStatus::Stopped => a == BgAction::Continue(i as usize),
                    },
                }
            }),
    {
        let idx = match self.find_job(arg) {
            Some(i) => i,
            None => {
                proof {
                    if let Some(x) = arg {
                        if let Some(jid) = parse_usize_spec(x@) {
                            if exists|j: int| 0 <= j < self.jobs@.len() && self.jobs@[j].jid == jid {
                                let j = choose|j: int| 0 <= j < self.jobs@.len() && self.jobs@[j].jid == jid;
                                assert(self.jobs@[j].jid != jid);
                            }
                        }
                    }
                }
                return BgAction::NotFound;
            },
        };
        let njobs = self.jobs.len();
        proof {
            let picked = if arg is None {
                if self.jobs@.len() > 0 { Some((self.jobs@.len() - 1) as int) } else { None }
            } else {
                match parse_usize_spec(arg.unwrap()@) {
                    None => None,
                    Some(jid) => if exists|j: int| 0 <= j < self.jobs@.len() && self.jobs@[j].jid == jid {
                        Some(choose|j: int| 0 <= j < self.jobs@.len() && self.jobs@[j].jid == jid)
                    } else {
                        None
                    },
                }
            };
            assert(njobs == self.jobs@.len());
            {
                match arg {
                    None => {},
                    Some(x) => {
                        match parse_usize_spec(x@) {
                            None => {},
                            Some(jid) => {
                                assert(self.jobs@[idx as int].jid == jid);
                                assert(exists|j: int| 0 <= j < self.jobs@.len() && self.jobs@[j].jid == jid);
                                let j = choose|j: int| 0 <= j < self.jobs@.len() && self.jobs@[j].jid == jid;
                                assert(0 <= j < self.jobs@.len() && self.jobs@[j].jid == jid);
                                if j < idx {
                                    assert(self.jobs@[j].jid < self.jobs@[idx as int].jid);
                                } else if j > idx {
                                    assert(self.jobs@[idx as int].jid < self.jobs@[j].jid);
                                }
                                assert(picked == Some(j));
                            },
                        }
                    },
                }
                assert(picked == Some(idx as int));
            }
        }
        match self.jobs[idx].status {
            JobStatus::Running => BgAction::AlreadyRunning(self.jobs[idx].jid),
            JobStatus::Done(_) => BgAction::AlreadyDone(self.jobs[idx].jid),
            JobStatus::Stopped => BgAction::Continue(idx),
        }
    }
}

/// The `pid` argument of `kill` that names process group `pgid`: its
/// negation, as the system call reads it.
pub fn group_kill_target(pgid: usize) -> (t: isize)
    requires
        pgid <= isize::MAX,
    ensures
        t == -(pgid as int),
{
    -(pgid as isize)
}

/// A job as plain values.
pub struct JobView {
    pub jid: usize,
    pub pgid: usize,
    pub pids: Seq<usize>,
    pub cmdline: Seq<char>,
    pub status: JobStatus,
}

pub open spec fn job_view(j: Job) -> JobView {
    JobView { jid: j.jid, pgid: j.pgid, pids: j.pids@, cmdline: j.cmdline@, status: j.status }
}

pub open spec fn jobs_view(js: Seq<Job>) -> Seq<JobView> {
    js.map_values(|j: Job| job_view(j))
}

/// `waitpid` on `pid` without blocking reported `r` (return value, exit
/// code): the child is gone when it was reaped or does not exist.
pub open spec fn reaped(pid: usize, r: (isize, i32)) -> bool {
    r.0 == pid as isize || r.0 == -1
}

/// The pids of `pids` that are gone by the reports `rs` (one per pid).
pub open spec fn gone_pids(pids: Seq<usize>, rs: Seq<(isize, i32)>) -> Seq<usize>
    decreases pids.len(),
{
    if pids.len() == 0 {
        Seq::empty()
    } else {
        let r = gone_pids(pids.drop_last(), rs.take(pids.len() - 1));
        if reaped(pids.last(), rs[pids.len() - 1]) { r.push(pids.last()) } else { r }
    }
}

/// The exit code of the last pid that is gone, or 0.
pub open spec fn last_gone_code(pids: Seq<usize>, rs: Seq<(isize, i32)>) -> i32
    decreases pids.len(),
{
    if pids.len() == 0 {
        0
    } else if reaped(pids.last(), rs[pids.len() - 1]) {
        rs[pids.len() - 1].1
    } else {
        last_gone_code(pids.drop_last(), rs.take(pids.len() - 1))
    }
}

/// The pids of `pids` that are not in `gone`, in order.
pub open spec fn without(pids: Seq<usize>, gone: Seq<usize>) -> Seq<usize>
    decreases pids.len(),
{
    if pids.len() == 0 {
        Seq::empty()
    } else {
        let r = without(pids.drop_last(), gone);
        if gone.contains(pids.last()) { r } else { r.push(pids.last()) }
    }
}

/// Job `j` after the reports `rs` on its pids: the gone pids leave it,
/// and it is done, with the code of the last one, when none is left.
pub open spec fn job_after_reports(j: JobView, rs: Seq<(isize, i32)>) -> JobView {
    let left = without(j.pids, gone_pids(j.pids, rs));
    JobView {
        jid: j.jid,
        pgid: j.pgid,
        pids: left,
        cmdline: j.cmdline,
        status: if left.len() == 0 { JobStatus::Done(last_gone_code(j.pids, rs)) } else { j.status },
    }
}

/// The jobs that are not done, in order.
pub open spec fn not_done_views(js: Seq<JobView>) -> Seq<JobView>
    decreases js.len(),
{
    if js.len() == 0 {
        Seq::empty()
    } else {
        let r = not_done_views(js.drop_last());
        if js.last().status is Done { r } else { r.push(js.last()) }
    }
}

/// What `reap_jobs` reports: for each job left without pids, in order,
/// its id, the code of its last pid and its command line.
pub open spec fn done_reports(js: Seq<JobView>, rss: Seq<Seq<(isize, i32)>>) -> Seq<(usize, i32, Seq<char>)>
    decreases js.len(),
{
    if js.len() == 0 {
        Seq::empty()
    } else {
        let r = done_reports(js.drop_last(), rss.take(js.len() - 1));
        let j = js.last();
        let rs = rss[js.len() - 1];
        if without(j.pids, gone_pids(j.pids, rs)).len() == 0 {
            r.push((j.jid, last_gone_code(j.pids, rs), j.cmdline))
        } else {
            r
        }
    }
}

pub open spec fn reports_view(v: Seq<Vec<(isize, i32)>>) -> Seq<Seq<(isize, i32)>> {
    v.map_values(|r: Vec<(isize, i32)>| r@)
}

pub open spec fn done_view(v: Seq<(usize, i32, Vec<char>)>) -> Seq<(usize, i32, Seq<char>)> {
    v.map_values(|d: (usize, i32, Vec<char>)| (d.0, d.1, d.2@))
}

proof fn lemma_not_done_views(js: Seq<Job>)
    ensures
        jobs_view(not_done(js)) == not_done_views(jobs_view(js)),
    decreases js.len(),
{
    if js.len() > 0 {
        lemma_not_done_views(js.drop_last());
        assert(jobs_view(js).drop_last() =~= jobs_view(js.drop_last()));
        let r = not_done(js.drop_last());
        if !(js.last().status is Done) {
            assert(jobs_view(r.push(js.last())) =~= jobs_view(r).push(job_view(js.last())));
        }
    } else {
        assert(jobs_view(not_done(js)) =~= Seq::<JobView>::empty());
    }
}

/// A copy of `s`.
fn clone_chars(s: &[char]) -> (c: Vec<char>)
    ensures
        c@ == s@,
{
    let mut c: Vec<char> = Vec::new();
    let mut k: usize = 0;
    while k < s.len()
        invariant
            k <= s@.len(),
            c@ == s@.take(k as int),
        decreases s@.len() - k,
    {
        c.push(s[k]);
        assert(c@ =~= s@.take(k + 1));
        k = k + 1;
    }
    assert(s@.take(k as int) =~= s@);
    c
}

/// The pids that are gone by `rs`, and the code of the last one.
fn gone_of(pids: &Vec<usize>, rs: &Vec<(isize, i32)>) -> (r: (Vec<usize>, i32))
    requires
        rs@.len() == pids@.len(),
    ensures
        r.0@ == gone_pids(pids@, rs@),
        r.1 == last_gone_code(pids@, rs@),
{
    let mut gone: Vec<usize> = Vec::new();
    let mut code: i32 = 0;
    let mut k: usize = 0;
    assert(pids@.take(0) =~= Seq::<usize>::empty());
    while k < pids.len()
        invariant
            rs@.len() == pids@.len(),
            k <= pids@.len(),
            gone@ == gone_pids(pids@.take(k as int), rs@.take(k as int)),
            code == last_gone_code(pids@.take(k as int), rs@.take(k as int)),
        decreases pids@.len() - k,
    {
        let p = pids[k];
        let r = rs[k];
        proof {
            let pk = pids@.take(k + 1);
            let rk = rs@.take(k + 1);
            assert(pk.drop_last() =~= pids@.take(k as int));
            assert(rk.take(k as int) =~= rs@.take(k as int));
            assert(pk.last() == p);
            assert(rk[k as int] == r);
        }
        if r.0 == p as isize || r.0 == -1 {
            gone.push(p);
            code = r.1;
        }
        k = k + 1;
    }
    assert(pids@.take(k as int) =~= pids@);
    assert(rs@.take(k as int) =~= rs@);
    (gone, code)
}

/// The pids of `pids` not in `gone`.
fn without_pids(pids: &Vec<usize>, gone: &Vec<usize>) -> (r: Vec<usize>)
    ensures
        r@ == without(pids@, gone@),
{
    let mut r: Vec<usize> = Vec::new();
    let mut k: usize = 0;
    assert(pids@.take(0) =~= Seq::<usize>::empty());
    while k < pids.len()
        invariant
            k <= pids@.len(),
            r@ == without(pids@.take(k as int), gone@),
        decreases pids@.len() - k,
    {
        let p = pids[k];
        let mut found = false;
        let mut g: usize = 0;
        while g < gone.len()
            invariant
                g <= gone@.len(),
                found == exists|i: int| 0 <= i < g && gone@[i] == p,
            decreases gone@.len() - g,
        {
            if gone[g] == p {
                found = true;
            }
            g = g + 1;
        }
        proof {
            assert(pids@.take(k + 1).drop_last() =~= pids@.take(k as int));
            assert(pids@.take(k + 1).last() == p);
            assert(found == gone@.contains(p));
        }
        if !found {
            r.push(p);
        }
        k = k + 1;
    }
    assert(pids@.take(k as int) =~= pids@);
    r
}

impl Shell {
    /// Takes in what a non-blocking `waitpid` reported for each pid of
    /// each job (`reports[j][k]` for `jobs[j].pids[k]`): pids that are
    /// gone leave their job, a job left without pids is done and
    /// reported, and done jobs are forgotten.
    pub fn reap_jobs(&mut self, reports: &Vec<Vec<(isize, i32)>>) -> (done: Vec<(usize, i32, Vec<char>)>)
        requires
            old(self).wf(),
            reports@.len() == old(self).jobs@.len(),
            forall|j: int| 0 <= j < reports@.len() ==> (#[trigger] reports@[j])@.len() == old(self).jobs@[j].pids@.len(),
        ensures
            final(self).wf(),
            jobs_view(final(self).jobs@) == not_done_views(
                Seq::new(old(self).jobs@.len(), |j: int| job_after_reports(job_view(old(self).jobs@[j]), reports@[j]@)),
            ),
            done_view(done@) == done_reports(jobs_view(old(self).jobs@), reports_view(reports@)),
            final(self).next_jid == old(self).next_jid,
            final(self).history@ == old(self).history@,
            final(self).shell_pgrp == old(self).shell_pgrp,
            final(self).history_cleared == old(self).history_cleared,
    {
        let ghost js0 = jobs_view(self.jobs@);
        let ghost rss = reports_view(reports@);
        let ghost after = Seq::new(js0.len(), |j: int| job_after_reports(js0[j], rss[j]));
        let mut done: Vec<(usize, i32, Vec<char>)> = Vec::new();
        let mut i: usize = 0;
        assert(js0.take(0) =~= Seq::<JobView>::empty());
        while i < self.jobs.len()
            invariant
                self.wf(),
                js0 == jobs_view(old(self).jobs@),
                rss == reports_view(reports@),
                after == Seq::new(js0.len(), |j: int| job_after_reports(js0[j], rss[j])),
                reports@.len() == js0.len(),
                forall|j: int| 0 <= j < reports@.len() ==> (#[trigger] reports@[j])@.len() == old(self).jobs@[j].pids@.len(),
                self.jobs@.len() == js0.len(),
                i <= js0.len(),
                forall|j: int| 0 <= j < i ==> job_view(#[trigger] self.jobs@[j]) == after[j],
                forall|j: int| i <= j < js0.len() ==> #[trigger] self.jobs@[j] == old(self).jobs@[j],
                done_view(done@) == done_reports(js0.take(i as int), rss.take(i as int)),
                self.next_jid == old(self).next_jid,
                self.history@ == old(self).history@,
                self.shell_pgrp == old(self).shell_pgrp,
                self.history_cleared == old(self).history_cleared,
            decreases js0.len() - i,
        {
            let (gone, code) = gone_of(&self.jobs[i].pids, &reports[i]);
            let left = without_pids(&self.jobs[i].pids, &gone);
            let ghost jv = js0[i as int];
            assert(jv == job_view(old(self).jobs@[i as int]));
            assert(rss[i as int] == reports@[i as int]@);
            if left.len() == 0 {
                let cmd = clone_chars(self.jobs[i].cmdline.as_slice());
                let ghost d0 = done_view(done@);
                done.push((self.jobs[i].jid, code, cmd));
                assert(done_view(done@) =~= d0.push((jv.jid, code, jv.cmdline)));
                self.jobs[i].status = JobStatus::Done(code);
            }
            self.jobs[i].pids = left;
            proof {
                assert(js0.take(i + 1).drop_last() =~= js0.take(i as int));
                assert(rss.take(i + 1).take(i as int) =~= rss.take(i as int));
                assert(js0.take(i + 1).last() == jv);
                assert(job_view(self.jobs@[i as int]) == after[i as int]);
            }
            i = i + 1;
        }
        proof {
            assert(js0.take(i as int) =~= js0);
            assert(rss.take(i as int) =~= rss);
            assert(jobs_view(self.jobs@) =~= after);
        }
        let ghost mid = self.jobs@;
        self.drop_done_jobs();
        proof {
            lemma_not_done_views(mid);
            assert(after =~= Seq::new(
                old(self).jobs@.len(),
                |j: int| job_after_reports(job_view(old(self).jobs@[j]), reports@[j]@),
            ));
        }
        done
    }
}

/// The jobs of `js` that are not done, in order.
pub open spec fn not_done(js: Seq<Job>) -> Seq<Job>
    decreases js.len(),
{
    if js.len() == 0 {
        Seq::empty()
    } else {
        let r = not_done(js.drop_last());
        if js.last().status is Done { r } else { r.push(js.last()) }
    }
}

proof fn lemma_not_done_members(js: Seq<Job>)
    ensures
        not_done(js).len() <= js.len(),
        forall|i: int| 0 <= i < not_done(js).len() ==> exists|k: int| 0 <= k < js.len() && #[trigger] not_done(js)[i] == js[k],
    decreases js.len(),
{
    if js.len() > 0 {
        lemma_not_done_members(js.drop_last());
        let r = not_done(js.drop_last());
        assert forall|i: int| 0 <= i < not_done(js).len() implies exists|k: int| 0 <= k < js.len() && #[trigger] not_done(js)[i] == js[k] by {
            if i < r.len() {
                let k = choose|k: int| 0 <= k < js.drop_last().len() && r[i] == js.drop_last()[k];
                assert(not_done(js)[i] == js[k]);
            } else {
                assert(not_done(js)[i] == js[js.len() - 1]);
            }
        }
    }
}

/// Dropping jobs keeps job ids increasing and below `next`.
proof fn lemma_not_done_sorted(js: Seq<Job>, next: usize)
    requires
        forall|i: int| 0 <= i < js.len() ==> (#[trigger] js[i]).jid < next,
        forall|i: int, j: int| 0 <= i < j < js.len() ==> (#[trigger] js[i]).jid < (#[trigger] js[j]).jid,
    ensures
        forall|i: int| 0 <= i < not_done(js).len() ==> (#[trigger] not_done(js)[i]).jid < next,
        forall|i: int, j: int| 0 <= i < j < not_done(js).len() ==> (#[trigger] not_done(js)[i]).jid < (#[trigger] not_done(js)[j]).jid,
    decreases js.len(),
{
    lemma_not_done_members(js);
    if js.len() > 0 {
        let p = js.drop_last();
        lemma_not_done_sorted(p, next);
        lemma_not_done_members(p);
        let r = not_done(p);
        assert forall|i: int, j: int| 0 <= i < j < not_done(js).len() implies (#[trigger] not_done(js)[i]).jid
            < (#[trigger] not_done(js)[j]).jid by {
            if j < r.len() {
                assert(not_done(js)[i] == r[i]);
                assert(not_done(js)[j] == r[j]);
            } else {
                let k = choose|k: int| 0 <= k < p.len() && r[i] == p[k];
                assert(not_done(js)[i] == p[k]);
                assert(not_done(js)[j] == js[js.len() - 1]);
                assert(js[k].jid < js[js.len() - 1].jid);
            }
        }
        assert forall|i: int| 0 <= i < not_done(js).len() implies (#[trigger] not_done(js)[i]).jid < next by {
            let k = choose|k: int| 0 <= k < js.len() && not_done(js)[i] == js[k];
        }
    }
}

pub open spec fn is_digit(c: char) -> bool {
    '0' <= c <= '9'
}

pub open spec fn digit_value(c: char) -> int {
    (c as u32) - ('0' as u32)
}

/// Decimal value of the digit string `d`.
pub open spec fn digits_value(d: Seq<char>) -> int
    decreases d.len(),
{
    if d.len() == 0 { 0 } else { digits_value(d.drop_last()) * 10 + digit_value(d.last()) }
}

/// `s` without its optional leading `+`.
pub open spec fn unsigned_digits(s: Seq<char>) -> Seq<char> {
    if s.len() > 0 && s[0] == '+' { s.drop_first() } else { s }
}

pub open spec fn all_digits(d: Seq<char>) -> bool {
    forall|i: int| 0 <= i < d.len() ==> is_digit(#[trigger] d[i])
}

/// What `str::parse::<usize>` gives: an optional `+`, then at least one
/// digit and nothing else, with a value that fits.
pub open spec fn parse_usize_spec(s: Seq<char>) -> Option<usize> {
    let d = unsigned_digits(s);
    if d.len() == 0 || !all_digits(d) {
        None
    } else if digits_value(d) > usize::MAX {
        None
    } else {
        Some(digits_value(d) as usize)
    }
}

proof fn lemma_digits_value_nonneg(d: Seq<char>)
    requires
        forall|i: int| 0 <= i < d.len() ==> is_digit(#[trigger] d[i]),
    ensures
        digits_value(d) >= 0,
    decreases d.len(),
{
    if d.len() > 0 {
        lemma_digits_value_nonneg(d.drop_last());
    }
}

proof fn lemma_digits_value_mono(d: Seq<char>, k: int)
    requires
        0 <= k <= d.len(),
        forall|i: int| 0 <= i < d.len() ==> is_digit(#[trigger] d[i]),
    ensures
        digits_value(d.take(k)) <= digits_value(d),
    decreases d.len() - k,
{
    if k < d.len() {
        lemma_digits_value_mono(d, k + 1);
        assert(d.take(k + 1).drop_last() =~= d.take(k));
        lemma_digits_value_nonneg(d.take(k));
    } else {
        assert(d.take(k) =~= d);
    }
}

/// Parses a decimal `usize` as `str::parse` does.
pub fn parse_usize(s: &[char]) -> (r: Option<usize>)
    ensures
        r == parse_usize_spec(s@),
{
    let start: usize = if s.len() > 0 && s[0] == '+' { 1 } else { 0 };
    let ghost d = unsigned_digits(s@);
    assert(d =~= s@.skip(start as int));
    if start >= s.len() {
        return None;
    }
    let mut v: usize = 0;
    let mut i: usize = start;
    let mut overflow = false;
    while i < s.len()
        invariant
            start <= i <= s@.len(),
            d == s@.skip(start as int),
            d == unsigned_digits(s@),
            forall|j: int| 0 <= j < i - start ==> is_digit(#[trigger] d[j]),
            !overflow ==> v == digits_value(d.take(i - start)),
            overflow ==> digits_value(d.take(i - start)) > usize::MAX,
        decreases s@.len() - i,
    {
        let c = s[i];
        if !('0' <= c && c <= '9') {
            proof {
                let j = i - start;
                assert(d[j] == s@[i as int]);
                assert(!is_digit(d[j]));
                assert(!all_digits(d));
            }
            return None;
        }
        let dv = (c as u32 - '0' as u32) as usize;
        proof {
            assert(d.take(i - start + 1).drop_last() =~= d.take(i - start));
            assert(d.take(i - start + 1).last() == c);
            lemma_digits_value_nonneg(d.take(i - start));
        }
        if !overflow {
            match v.checked_mul(10) {
                Some(m) => match m.checked_add(dv) {
                    Some(n) => v = n,
                    None => overflow = true,
                },
                None => overflow = true,
            }
        }
        i = i + 1;
    }
    proof {
        assert(d.take(i - start) =~= d);
    }
    if overflow {
        None
    } else {
        Some(v)
    }
}

/// What `kill` is asked to signal.
#[derive(Copy, Clone, Debug, PartialEq, Eq, Structural)]
pub enum KillTarget {
    /// `-pgid`: every process of the group.
    Group(usize),
    /// `pid`: one process.
    Process(usize),
}

/// Why the arguments of `kill` were rejected.
#[derive(Copy, Clone, Debug, PartialEq, Eq, Structural)]
pub enum KillError {
    /// No target given.
    Usage,
    /// `-NAME` names no known signal.
    UnknownSignal,
    /// The target is not a number.
    InvalidArgument,
}

pub open spec fn ascii_upper(c: char) -> char {
    if 'a' <= c <= 'z' { ((c as u32) - 32) as char } else { c }
}

pub open spec fn upper(s: Seq<char>) -> Seq<char> {
    s.map_values(|c: char| ascii_upper(c))
}

/// The signal bits a signal name stands for (case does not matter).
pub open spec fn signal_by_name(name: Seq<char>) -> Option<i32> {
    let u = upper(name);
    if u == seq!['I', 'N', 'T'] {
        Some(SIGINT_BITS)
    } else if u == seq!['T', 'S', 'T', 'P'] {
        Some(SIGTSTP_BITS)
    } else if u == seq!['C', 'O', 'N', 'T'] {
        Some(SIGCONT_BITS)
    } else if u == seq!['A', 'B', 'R', 'T'] {
        Some(SIGABRT_BITS)
    } else if u == seq!['I', 'L', 'L'] {
        Some(SIGILL_BITS)
    } else if u == seq!['F', 'P', 'E'] {
        Some(SIGFPE_BITS)
    } else if u == seq!['S', 'E', 'G', 'V'] {
        Some(SIGSEGV_BITS)
    } else {
        None
    }
}

/// Each signal name stands for its own signal, whatever its case: `INT`
/// for SIGINT, `TSTP` for SIGTSTP, `CONT` for SIGCONT, `ABRT`, `ILL`,
/// `FPE` and `SEGV` for theirs; two names that stand for the same signal
/// are the same name up to case.
pub proof fn lemma_signal_names(name: Seq<char>, other: Seq<char>)
    ensures
        upper(name) == seq!['I', 'N', 'T'] ==> signal_by_name(name) == Some(SIGINT_BITS),
        upper(name) == seq!['T', 'S', 'T', 'P'] ==> signal_by_name(name) == Some(SIGTSTP_BITS),
        upper(name) == seq!['C', 'O', 'N', 'T'] ==> signal_by_name(name) == Some(SIGCONT_BITS),
        upper(name) == seq!['A', 'B', 'R', 'T'] ==> signal_by_name(name) == Some(SIGABRT_BITS),
        upper(name) == seq!['I', 'L', 'L'] ==> signal_by_name(name) == Some(SIGILL_BITS),
        upper(name) == seq!['F', 'P', 'E'] ==> signal_by_name(name) == Some(SIGFPE_BITS),
        upper(name) == seq!['S', 'E', 'G', 'V'] ==> signal_by_name(name) == Some(SIGSEGV_BITS),
        signal_by_name(name).is_some() && signal_by_name(name) == signal_by_name(other) ==> upper(name) == upper(other),
{
}

/// `kill -NAME target` sends the named signal: for a signal name (any
/// case) and a valid target, `kill` asks for that signal at that target;
/// `kill -TSTP 5` stops process 5, `kill -CONT 5` resumes it.
pub proof fn lemma_kill_named_signal(name: Seq<char>, arg: Seq<char>, sig: i32)
    requires
        upper(name) == seq!['T', 'S', 'T', 'P'] && sig == SIGTSTP_BITS
            || upper(name) == seq!['C', 'O', 'N', 'T'] && sig == SIGCONT_BITS
            || upper(name) == seq!['I', 'N', 'T'] && sig == SIGINT_BITS,
        kill_target_spec(arg).is_some(),
    ensures
        kill_args_spec(seq![seq!['-'] + name, arg]) == Ok::<(i32, KillTarget), KillError>((sig, kill_target_spec(arg).unwrap())),
{
    lemma_signal_names(name, name);
    let a0 = seq!['-'] + name;
    assert(a0.drop_first() =~= name);
    assert(upper(name).len() == name.len());
    assert(name.len() > 0);
    let c = name[0];
    assert(upper(name)[0] == ascii_upper(c));
    assert(ascii_upper(c) == 'T' || ascii_upper(c) == 'C' || ascii_upper(c) == 'I');
    assert(!is_digit(c));
    assert(!all_digits(name));
}

pub open spec fn starts_with_dash(s: Seq<char>) -> bool {
    s.len() > 0 && s[0] == '-'
}

/// The target a `kill` argument names.
pub open spec fn kill_target_spec(arg: Seq<char>) -> Option<KillTarget> {
    if starts_with_dash(arg) && parse_usize_spec(arg.drop_first()).is_some() {
        Some(KillTarget::Group(parse_usize_spec(arg.drop_first()).unwrap()))
    } else if parse_usize_spec(arg).is_some() {
        Some(KillTarget::Process(parse_usize_spec(arg).unwrap()))
    } else {
        None
    }
}

/// What `kill [-SIG] <pid | -pgid>` asks for: the signal (SIGINT when
/// none is named) and the target. A first argument `-N` with digits only
/// is a group, not a signal.
pub open spec fn kill_args_spec(args: Seq<Seq<char>>) -> Result<(i32, KillTarget), KillError> {
    if args.len() == 0 {
        Err(KillError::Usage)
    } else {
        let a0 = args[0];
        let names_signal = starts_with_dash(a0) && !(a0.drop_first().len() > 0 && all_digits(a0.drop_first()));
        if names_signal && signal_by_name(a0.drop_first()).is_none() {
            Err(KillError::UnknownSignal)
        } else {
            let signal = if names_signal { signal_by_name(a0.drop_first()).unwrap() } else { SIGINT_BITS };
            let t = if names_signal { 1int } else { 0int };
            if t >= args.len() {
                Err(KillError::Usage)
            } else {
                match kill_target_spec(args[t]) {
                    Some(target) => Ok((signal, target)),
                    None => Err(KillError::InvalidArgument),
                }
            }
        }
    }
}

fn upper_chars(s: &[char]) -> (r: Vec<char>)
    ensures
        r@ == upper(s@),
{
    let mut r: Vec<char> = Vec::new();
    let mut k: usize = 0;
    while k < s.len()
        invariant
            k <= s@.len(),
            r@ == upper(s@.take(k as int)),
        decreases s@.len() - k,
    {
        let c = s[k];
        let u = if 'a' <= c && c <= 'z' {
            let v = (c as u32) - 32;
            assert(0x41 <= v <= 0x5a);
            (v as u8) as char
        } else {
            c
        };
        r.push(u);
        assert(upper(s@.take(k + 1)) =~= upper(s@.take(k as int)).push(ascii_upper(c)));
        k = k + 1;
    }
    assert(s@.take(k as int) =~= s@);
    r
}

fn all_digit_chars(s: &[char]) -> (b: bool)
    ensures
        b == all_digits(s@),
{
    let mut k: usize = 0;
    while k < s.len()
        invariant
            k <= s@.len(),
            forall|j: int| 0 <= j < k ==> is_digit(#[trigger] s@[j]),
        decreases s@.len() - k,
    {
        if !('0' <= s[k] && s[k] <= '9') {
            assert(!is_digit(s@[k as int]));
            return false;
        }
        k = k + 1;
    }
    true
}

fn signal_named(name: &[char]) -> (r: Option<i32>)
    ensures
        r == signal_by_name(name@),
{
    let u = upper_chars(name);
    let int_ = ['I', 'N', 'T'];
    let tstp = ['T', 'S', 'T', 'P'];
    let cont = ['C', 'O', 'N', 'T'];
    let abrt = ['A', 'B', 'R', 'T'];
    let ill = ['I', 'L', 'L'];
    let fpe = ['F', 'P', 'E'];
    let segv = ['S', 'E', 'G', 'V'];
    assert(int_@ =~= seq!['I', 'N', 'T']);
    assert(tstp@ =~= seq!['T', 'S', 'T', 'P']);
    assert(cont@ =~= seq!['C', 'O', 'N', 'T']);
    assert(abrt@ =~= seq!['A', 'B', 'R', 'T']);
    assert(ill@ =~= seq!['I', 'L', 'L']);
    assert(fpe@ =~= seq!['F', 'P', 'E']);
    assert(segv@ =~= seq!['S', 'E', 'G', 'V']);
    if chars_eq(u.as_slice(), &int_) {
        Some(SIGINT_BITS)
    } else if chars_eq(u.as_slice(), &tstp) {
        Some(SIGTSTP_BITS)
    } else if chars_eq(u.as_slice(), &cont) {
        Some(SIGCONT_BITS)
    } else if chars_eq(u.as_slice(), &abrt) {
        Some(SIGABRT_BITS)
    } else if chars_eq(u.as_slice(), &ill) {
        Some(SIGILL_BITS)
    } else if chars_eq(u.as_slice(), &fpe) {
        Some(SIGFPE_BITS)
    } else if chars_eq(u.as_slice(), &segv) {
        Some(SIGSEGV_BITS)
    } else {
        None
    }
}

fn tail(s: &[char]) -> (r: Vec<char>)
    requires
        s@.len() > 0,
    ensures
        r@ == s@.drop_first(),
{
    let mut r: Vec<char> = Vec::new();
    let mut k: usize = 1;
    while k < s.len()
        invariant
            1 <= k <= s@.len(),
            r@ == s@.subrange(1, k as int),
        decreases s@.len() - k,
    {
        r.push(s[k]);
        assert(s@.subrange(1, k + 1) =~= s@.subrange(1, k as int).push(s@[k as int]));
        k = k + 1;
    }
    assert(s@.subrange(1, k as int) =~= s@.drop_first());
    r
}

/// Parses the arguments of the `kill` builtin.
pub fn parse_kill_args(args: &Vec<Vec<char>>) -> (r: Result<(i32, KillTarget), KillError>)
    ensures
        r == kill_args_spec(words(args@)),
{
    let ghost ws = words(args@);
    if args.len() == 0 {
        return Err(KillError::Usage);
    }
    let a0 = &args[0];
    assert(ws[0] == a0@);
    let mut signal = SIGINT_BITS;
    let mut target: usize = 0;
    if a0.len() > 0 && a0[0] == '-' {
        let name = tail(a0.as_slice());
        if !(name.len() > 0 && all_digit_chars(name.as_slice())) {
            match signal_named(name.as_slice()) {
                Some(sig) => signal = sig,
                None => return Err(KillError::UnknownSignal),
            }
            target = 1;
        }
    }
    if target >= args.len() {
        return Err(KillError::Usage);
    }
    let arg = &args[target];
    assert(ws[target as int] == arg@);
    if arg.len() > 0 && arg[0] == '-' {
        let rest = tail(arg.as_slice());
        match parse_usize(rest.as_slice()) {
            Some(pid) => return Ok((signal, KillTarget::Group(pid))),
            None => {},
        }
    }
    match parse_usize(arg.as_slice()) {
        Some(pid) => Ok((signal, KillTarget::Process(pid))),
        None => Err(KillError::InvalidArgument),
    }
}

/// The directory `cd` goes to: its first argument, or `/` without one.
pub fn cd_target(args: &Vec<Vec<char>>) -> (r: Vec<char>)
    ensures
        r@ == (if args@.len() == 0 { seq!['/'] } else { args@[0]@ }),
{
    if args.len() == 0 {
        let mut r: Vec<char> = Vec::new();
        r.push('/');
        assert(r@ =~= seq!['/']);
        r
    } else {
        let mut r: Vec<char> = Vec::new();
        push_chars(&mut r, args[0].as_slice());
        assert(r@ =~= args@[0]@);
        r
    }
}

/// `history -c` asks for the history to be cleared.
pub fn is_history_clear(args: &Vec<Vec<char>>) -> (b: bool)
    ensures
        b == (args@.len() > 0 && args@[0]@ == seq!['-', 'c']),
{
    if args.len() == 0 {
        return false;
    }
    let flag = ['-', 'c'];
    assert(flag@ =~= seq!['-', 'c']);
    chars_eq(args[0].as_slice(), &flag)
}

} // verus!
