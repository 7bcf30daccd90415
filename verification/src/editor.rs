//! The shell's line editor: cursor movement and editing keys, history
//! recall, and decoding of terminal escape sequences into keys.

use vstd::prelude::*;
use std::collections::VecDeque;

verus! {

/// Lines of history kept.
pub const MAX_HISTORY: usize = 100;

pub const ESC: u8 = 0x1b;
pub const CR: u8 = 0x0d;
pub const LF: u8 = 0x0a;
pub const BS: u8 = 0x08;
pub const DEL: u8 = 0x7f;

/// `line` entered into a history `h`: empty lines and repeats of the last
/// line are not kept, and the oldest line goes when there are too many.
pub open spec fn history_add_spec(h: Seq<Seq<u8>>, line: Seq<u8>) -> Seq<Seq<u8>> {
    if line.len() == 0 || (h.len() > 0 && h.last() == line) {
        h
    } else if h.len() + 1 > MAX_HISTORY {
        h.push(line).drop_first()
    } else {
        h.push(line)
    }
}

pub open spec fn lines_view(h: Seq<Vec<u8>>) -> Seq<Seq<u8>> {
    h.map_values(|l: Vec<u8>| l@)
}

pub fn clone_bytes(src: &[u8]) -> (c: Vec<u8>)
    ensures
        c@ == src@,
{
    let mut c: Vec<u8> = Vec::new();
    let mut k: usize = 0;
    while k < src.len()
        invariant
            k <= src@.len(),
            c@ == src@.take(k as int),
        decreases src@.len() - k,
    {
        c.push(src[k]);
        assert(src@.take(k + 1) =~= src@.take(k as int).push(src@[k as int]));
        k = k + 1;
    }
    assert(src@.take(k as int) =~= src@);
    c
}

/// Enters `line` into the history `h` (see `history_add_spec`); returns
/// whether it was kept.
pub fn history_add(h: &mut VecDeque<Vec<u8>>, line: &[u8]) -> (added: bool)
    ensures
        lines_view(final(h)@) == history_add_spec(lines_view(old(h)@), line@),
        added == !(line@.len() == 0 || (old(h)@.len() > 0 && old(h)@.last()@ == line@)),
{
    let ghost h0 = lines_view(h@);
    if line.len() == 0 {
        return false;
    }
    let n = h.len();
    if n > 0 {
        let last = &h[n - 1];
        let mut same = last.len() == line.len();
        let mut k: usize = 0;
        while same && k < line.len()
            invariant
                k <= line@.len(),
                same ==> last@.len() == line@.len(),
                same ==> forall|j: int| 0 <= j < k ==> last@[j] == line@[j],
                !same ==> last@ != line@,
            decreases line@.len() - k,
        {
            if last[k] != line[k] {
                same = false;
            }
            k = k + 1;
        }
        if same {
            assert(last@ =~= line@);
            assert(h0.last() == line@);
            return false;
        }
        assert(h0.last() == last@);
    }
    let l = clone_bytes(line);
    h.push_back(l);
    if h.len() > MAX_HISTORY {
        h.pop_front();
        assert(lines_view(h@) =~= h0.push(line@).drop_first());
    } else {
        assert(lines_view(h@) =~= h0.push(line@));
    }
    true
}

/// ASCII whitespace as `u8::is_ascii_whitespace` has it.
pub open spec fn ascii_ws(b: u8) -> bool {
    b == 0x20 || b == 0x09 || b == 0x0a || b == 0x0c || b == 0x0d
}

/// Start of the run of whitespace that ends at `c`.
pub open spec fn ws_run_start(buf: Seq<u8>, c: int) -> int
    decreases c,
{
    if c > 0 && c <= buf.len() && ascii_ws(buf[c - 1]) { ws_run_start(buf, c - 1) } else { c }
}

/// Start of the run of non-whitespace that ends at `c`.
pub open spec fn word_run_start(buf: Seq<u8>, c: int) -> int
    decreases c,
{
    if c > 0 && c <= buf.len() && !ascii_ws(buf[c - 1]) { word_run_start(buf, c - 1) } else { c }
}

/// A key of the line editor.
#[derive(Copy, Clone, Debug, PartialEq, Eq, Structural)]
pub enum Key {
    Enter,
    Backspace,
    /// Ctrl-A or Home.
    Home,
    /// Ctrl-E or End.
    End,
    /// Ctrl-U.
    KillLine,
    /// Ctrl-K.
    KillToEnd,
    /// Ctrl-W.
    DeleteWord,
    Tab,
    /// Ctrl-D.
    EndOfInput,
    Up,
    Down,
    Right,
    Left,
    /// The Delete key (`ESC [ 3 ~`).
    Delete,
    /// A printable byte.
    Char(u8),
    /// Anything else: no effect.
    Other,
}

/// Where the decoder is inside an escape sequence.
#[derive(Copy, Clone, Debug, PartialEq, Eq, Structural)]
pub enum DecodeState {
    Ground,
    /// After `ESC`.
    Escape,
    /// After `ESC [`.
    Bracket,
    /// After `ESC [ 3`.
    Bracket3,
}

/// The key a single byte stands for outside an escape sequence.
pub open spec fn ground_key(b: u8) -> Option<Key> {
    if b == LF || b == CR {
        Some(Key::Enter)
    } else if b == BS || b == DEL {
        Some(Key::Backspace)
    } else if b == 0x01 {
        Some(Key::Home)
    } else if b == 0x05 {
        Some(Key::End)
    } else if b == 0x15 {
        Some(Key::KillLine)
    } else if b == 0x0b {
        Some(Key::KillToEnd)
    } else if b == 0x17 {
        Some(Key::DeleteWord)
    } else if b == 0x09 {
        Some(Key::Tab)
    } else if b == 0x04 {
        Some(Key::EndOfInput)
    } else if b == ESC {
        None
    } else if b >= 0x20 {
        Some(Key::Char(b))
    } else {
        Some(Key::Other)
    }
}

/// In the ground state a byte submits the line exactly when it is a line
/// feed or a carriage return, and every printable byte (space to `~`) is
/// typed as itself; the decoder stays in the ground state for all of them.
pub proof fn lemma_ground_keys(b: u8)
    ensures
        (decode_spec(DecodeState::Ground, b) == (DecodeState::Ground, Some(Key::Enter))) == (b == LF || b == CR),
        0x20 <= b < DEL ==> decode_spec(DecodeState::Ground, b) == (DecodeState::Ground, Some(Key::Char(b))),
{
}

/// One step of the decoder: the next state and the key completed, if any.
pub open spec fn decode_spec(st: DecodeState, b: u8) -> (DecodeState, Option<Key>) {
    match st {
        DecodeState::Ground => if b == ESC { (DecodeState::Escape, None) } else { (DecodeState::Ground, ground_key(b)) },
        DecodeState::Escape => if b == 0x5b { (DecodeState::Bracket, None) } else { (DecodeState::Ground, None) },
        DecodeState::Bracket => {
            if b == 0x41 {
                (DecodeState::Ground, Some(Key::Up))
            } else if b == 0x42 {
                (DecodeState::Ground, Some(Key::Down))
            } else if b == 0x43 {
                (DecodeState::Ground, Some(Key::Right))
            } else if b == 0x44 {
                (DecodeState::Ground, Some(Key::Left))
            } else if b == 0x48 {
                (DecodeState::Ground, Some(Key::Home))
            } else if b == 0x46 {
                (DecodeState::Ground, Some(Key::End))
            } else if b == 0x33 {
                (DecodeState::Bracket3, None)
            } else {
                (DecodeState::Ground, None)
            }
        },
        DecodeState::Bracket3 => if b == 0x7e { (DecodeState::Ground, Some(Key::Delete)) } else { (DecodeState::Ground, None) },
    }
}

/// Feeds one input byte to the key decoder.
pub fn decode_byte(st: DecodeState, b: u8) -> (r: (DecodeState, Option<Key>))
    ensures
        r == decode_spec(st, b),
{
    match st {
        DecodeState::Ground => {
            if b == ESC {
                (DecodeState::Escape, None)
            } else if b == LF || b == CR {
                (DecodeState::Ground, Some(Key::Enter))
            } else if b == BS || b == DEL {
                (DecodeState::Ground, Some(Key::Backspace))
            } else if b == 0x01 {
                (DecodeState::Ground, Some(Key::Home))
            } else if b == 0x05 {
                (DecodeState::Ground, Some(Key::End))
            } else if b == 0x15 {
                (DecodeState::Ground, Some(Key::KillLine))
            } else if b == 0x0b {
                (DecodeState::Ground, Some(Key::KillToEnd))
            } else if b == 0x17 {
                (DecodeState::Ground, Some(Key::DeleteWord))
            } else if b == 0x09 {
                (DecodeState::Ground, Some(Key::Tab))
            } else if b == 0x04 {
                (DecodeState::Ground, Some(Key::EndOfInput))
            } else if b >= 0x20 {
                (DecodeState::Ground, Some(Key::Char(b)))
            } else {
                (DecodeState::Ground, Some(Key::Other))
            }
        },
        DecodeState::Escape => {
            if b == 0x5b {
                (DecodeState::Bracket, None)
            } else {
                (DecodeState::Ground, None)
            }
        },
        DecodeState::Bracket => {
            if b == 0x41 {
                (DecodeState::Ground, Some(Key::Up))
            } else if b == 0x42 {
                (DecodeState::Ground, Some(Key::Down))
            } else if b == 0x43 {
                (DecodeState::Ground, Some(Key::Right))
            } else if b == 0x44 {
                (DecodeState::Ground, Some(Key::Left))
            } else if b == 0x48 {
                (DecodeState::Ground, Some(Key::Home))
            } else if b == 0x46 {
                (DecodeState::Ground, Some(Key::End))
            } else if b == 0x33 {
                (DecodeState::Bracket3, None)
            } else {
                (DecodeState::Ground, None)
            }
        },
        DecodeState::Bracket3 => {
            if b == 0x7e {
                (DecodeState::Ground, Some(Key::Delete))
            } else {
                (DecodeState::Ground, None)
            }
        },
    }
}

/// The line being edited, its cursor, and the history it recalls.
pub struct LineEditor {
    pub buf: Vec<u8>,
    pub cursor: usize,
    pub history: VecDeque<Vec<u8>>,
    /// The history line being shown, if any.
    pub hist_idx: Option<usize>,
}

/// What the editor asks of the terminal after a key.
#[derive(Debug)]
pub enum EditAction {
    /// Nothing changed on screen.
    Nothing,
    /// Redraw the prompt and the line.
    Redraw,
    /// The line is complete.
    Submit(Vec<u8>),
    /// End of input (Ctrl-D on an empty line).
    EndOfInput,
    /// Complete the word before the cursor.
    Complete,
}

impl LineEditor {
    pub open spec fn wf(&self) -> bool {
        &&& self.cursor <= self.buf@.len()
        &&& self.hist_idx matches Some(i) ==> i < self.history@.len()
    }

    pub fn new() -> (e: Self)
        ensures
            e.wf(),
            e.buf@.len() == 0,
            e.cursor == 0,
            e.history@.len() == 0,
            e.hist_idx.is_none(),
    {
        LineEditor { buf: Vec::new(), cursor: 0, history: VecDeque::new(), hist_idx: None }
    }

    /// Inserts `c` at the cursor and moves past it.
    pub fn insert(&mut self, c: u8)
        requires
            old(self).wf(),
            old(self).buf@.len() < usize::MAX,
        ensures
            final(self).wf(),
            final(self).buf@ == old(self).buf@.insert(old(self).cursor as int, c),
            final(self).cursor == old(self).cursor + 1,
            final(self).history@ == old(self).history@,
            final(self).hist_idx == old(self).hist_idx,
    {
        self.buf.insert(self.cursor, c);
        self.cursor = self.cursor + 1;
    }

    /// Deletes the byte before the cursor; returns whether there was one.
    pub fn backspace(&mut self) -> (changed: bool)
        requires
            old(self).wf(),
        ensures
            final(self).wf(),
            changed == (old(self).cursor > 0),
            changed ==> final(self).buf@ == old(self).buf@.remove(old(self).cursor - 1) && final(self).cursor
                == old(self).cursor - 1,
            !changed ==> final(self).buf@ == old(self).buf@ && final(self).cursor == old(self).cursor,
            final(self).history@ == old(self).history@,
            final(self).hist_idx == old(self).hist_idx,
    {
        if self.cursor > 0 {
            self.buf.remove(self.cursor - 1);
            self.cursor = self.cursor - 1;
            true
        } else {
            false
        }
    }

    pub fn move_left(&mut self) -> (changed: bool)
        requires
            old(self).wf(),
        ensures
            final(self).wf(),
            changed == (old(self).cursor > 0),
            final(self).cursor == (if changed { old(self).cursor - 1 } else { old(self).cursor as int }),
            final(self).buf@ == old(self).buf@,
            final(self).history@ == old(self).history@,
            final(self).hist_idx == old(self).hist_idx,
    {
        if self.cursor > 0 {
            self.cursor = self.cursor - 1;
            true
        } else {
            false
        }
    }

    pub fn move_right(&mut self) -> (changed: bool)
        requires
            old(self).wf(),
        ensures
            final(self).wf(),
            changed == (old(self).cursor < old(self).buf@.len()),
            final(self).cursor == (if changed { old(self).cursor + 1 } else { old(self).cursor as int }),
            final(self).buf@ == old(self).buf@,
            final(self).history@ == old(self).history@,
            final(self).hist_idx == old(self).hist_idx,
    {
        if self.cursor < self.buf.len() {
            self.cursor = self.cursor + 1;
            true
        } else {
            false
        }
    }

    pub fn home(&mut self)
        requires
            old(self).wf(),
        ensures
            final(self).wf(),
            final(self).cursor == 0,
            final(self).buf@ == old(self).buf@,
            final(self).history@ == old(self).history@,
            final(self).hist_idx == old(self).hist_idx,
    {
        self.cursor = 0;
    }

    pub fn end(&mut self)
        requires
            old(self).wf(),
        ensures
            final(self).wf(),
            final(self).cursor == old(self).buf@.len(),
            final(self).buf@ == old(self).buf@,
            final(self).history@ == old(self).history@,
            final(self).hist_idx == old(self).hist_idx,
    {
        self.cursor = self.buf.len();
    }

    /// Clears the line.
    pub fn kill_line(&mut self)
        requires
            old(self).wf(),
        ensures
            final(self).wf(),
            final(self).buf@.len() == 0,
            final(self).cursor == 0,
            final(self).history@ == old(self).history@,
            final(self).hist_idx == old(self).hist_idx,
    {
        self.buf.clear();
        self.cursor = 0;
    }

    /// Deletes from the cursor to the end of the line.
    pub fn kill_to_end(&mut self)
        requires
            old(self).wf(),
        ensures
            final(self).wf(),
            final(self).buf@ == old(self).buf@.take(old(self).cursor as int),
            final(self).cursor == old(self).cursor,
            final(self).history@ == old(self).history@,
            final(self).hist_idx == old(self).hist_idx,
    {
        self.buf.truncate(self.cursor);
    }

    /// Deletes the byte under the cursor; returns whether there was one.
    pub fn delete_char(&mut self) -> (changed: bool)
        requires
            old(self).wf(),
        ensures
            final(self).wf(),
            changed == (old(self).cursor < old(self).buf@.len()),
            changed ==> final(self).buf@ == old(self).buf@.remove(old(self).cursor as int),
            !changed ==> final(self).buf@ == old(self).buf@,
            final(self).cursor == old(self).cursor,
            final(self).history@ == old(self).history@,
            final(self).hist_idx == old(self).hist_idx,
    {
        if self.cursor < self.buf.len() {
            self.buf.remove(self.cursor);
            true
        } else {
            false
        }
    }

    /// Deletes the word before the cursor, with the whitespace between them.
    pub fn delete_word(&mut self)
        requires
            old(self).wf(),
        ensures
            final(self).wf(),
            ({
                let b = old(self).buf@;
                let start = word_run_start(b, ws_run_start(b, old(self).cursor as int));
                &&& final(self).cursor == start
                &&& final(self).buf@ == b.take(start) + b.skip(old(self).cursor as int)
            }),
            final(self).history@ == old(self).history@,
            final(self).hist_idx == old(self).hist_idx,
    {
        let ghost b = self.buf@;
        let ghost c0 = self.cursor as int;
        assert(b.take(c0) + b.skip(c0) =~= b);
        while self.cursor > 0 && is_ascii_ws(self.buf[self.cursor - 1])
            invariant
                self.cursor <= c0,
                c0 <= b.len(),
                self.buf@ == b.take(self.cursor as int) + b.skip(c0),
                ws_run_start(b, self.cursor as int) == ws_run_start(b, c0),
                self.history@ == old(self).history@,
                self.hist_idx == old(self).hist_idx,
                old(self).wf(),
            decreases self.cursor,
        {
            assert(self.buf@[self.cursor - 1] == b[self.cursor - 1]);
            self.buf.remove(self.cursor - 1);
            self.cursor = self.cursor - 1;
            assert(self.buf@ =~= b.take(self.cursor as int) + b.skip(c0));
        }
        proof {
            if self.cursor > 0 {
                assert(self.buf@[self.cursor - 1] == b[self.cursor - 1]);
            }
        }
        let ghost c1 = self.cursor as int;
        assert(ws_run_start(b, c1) == c1);
        while self.cursor > 0 && !is_ascii_ws(self.buf[self.cursor - 1])
            invariant
                self.cursor <= c1,
                c1 <= c0 <= b.len(),
                self.buf@ == b.take(self.cursor as int) + b.skip(c0),
                word_run_start(b, self.cursor as int) == word_run_start(b, c1),
                ws_run_start(b, c0) == c1,
                self.history@ == old(self).history@,
                self.hist_idx == old(self).hist_idx,
                old(self).wf(),
            decreases self.cursor,
        {
            assert(self.buf@[self.cursor - 1] == b[self.cursor - 1]);
            self.buf.remove(self.cursor - 1);
            self.cursor = self.cursor - 1;
            assert(self.buf@ =~= b.take(self.cursor as int) + b.skip(c0));
        }
        proof {
            if self.cursor > 0 {
                assert(self.buf@[self.cursor - 1] == b[self.cursor - 1]);
            }
        }
    }

    /// Shows the previous history line; returns whether the history has any.
    pub fn history_prev(&mut self) -> (changed: bool)
        requires
            old(self).wf(),
        ensures
            final(self).wf(),
            changed == (old(self).history@.len() > 0),
            !changed ==> final(self).buf@ == old(self).buf@ && final(self).cursor == old(self).cursor
                && final(self).hist_idx == old(self).hist_idx,
            changed ==> {
                let i = match old(self).hist_idx {
                    None => old(self).history@.len() - 1,
                    Some(j) => if j == 0 { 0 } else { j - 1 },
                };
                &&& final(self).hist_idx == Some(i as usize)
                &&& final(self).buf@ == old(self).history@[i]@
                &&& final(self).cursor == final(self).buf@.len()
            },
            final(self).history@ == old(self).history@,
    {
        if self.history.len() == 0 {
            return false;
        }
        let i = match self.hist_idx {
            None => self.history.len() - 1,
            Some(j) => if j == 0 { 0 } else { j - 1 },
        };
        self.hist_idx = Some(i);
        self.buf = clone_bytes(self.history[i].as_slice());
        self.cursor = self.buf.len();
        true
    }

    /// Shows the next history line, or an empty line past the newest one.
    /// Returns whether a history line was being shown.
    pub fn history_next(&mut self) -> (changed: bool)
        requires
            old(self).wf(),
        ensures
            final(self).wf(),
            changed == old(self).hist_idx.is_some(),
            !changed ==> final(self).buf@ == old(self).buf@ && final(self).cursor == old(self).cursor
                && final(self).hist_idx == old(self).hist_idx,
            changed ==> {
                let i = old(self).hist_idx.unwrap();
                if i + 1 < old(self).history@.len() {
                    &&& final(self).hist_idx == Some((i + 1) as usize)
                    &&& final(self).buf@ == old(self).history@[i + 1]@
                    &&& final(self).cursor == final(self).buf@.len()
                } else {
                    &&& final(self).hist_idx.is_none()
                    &&& final(self).buf@.len() == 0
                    &&& final(self).cursor == 0
                }
            },
            final(self).history@ == old(self).history@,
    {
        match self.hist_idx {
            None => false,
            Some(i) => {
                let n = self.history.len();
                if i + 1 < n {
                    self.hist_idx = Some(i + 1);
                    self.buf = clone_bytes(self.history[i + 1].as_slice());
                    self.cursor = self.buf.len();
                } else {
                    self.hist_idx = None;
                    self.buf.clear();
                    self.cursor = 0;
                }
                true
            },
        }
    }

    /// Enters `line` into the history and stops showing a history line
    /// (the latter only when the line is kept).
    pub fn add_history(&mut self, line: &[u8])
        requires
            old(self).wf(),
        ensures
            final(self).wf(),
            lines_view(final(self).history@) == history_add_spec(lines_view(old(self).history@), line@),
            final(self).hist_idx == (if line@.len() == 0 || (old(self).history@.len() > 0
                && old(self).history@.last()@ == line@) { old(self).hist_idx } else { None }),
            final(self).buf@ == old(self).buf@,
            final(self).cursor == old(self).cursor,
    {
        let added = history_add(&mut self.history, line);
        if added {
            self.hist_idx = None;
        } else {
            proof {
                assert(lines_view(self.history@).len() == self.history@.len());
                assert(lines_view(old(self).history@).len() == old(self).history@.len());
            }
        }
    }

    /// Applies a key. Returns what the terminal has to do. A typed
    /// character is added at the end of the line; the cursor keys move the
    /// point where Backspace, Delete and the kill keys work.
    pub fn handle_key(&mut self, key: Key) -> (a: EditAction)
        requires
            old(self).wf(),
            old(self).buf@.len() < usize::MAX,
        ensures
            final(self).wf(),
            final(self).history@ == old(self).history@,
            ({
                let b = old(self).buf@;
                let c = old(self).cursor as int;
                let h = old(self).history@;
                let nb = final(self).buf@;
                let nc = final(self).cursor as int;
                let same = nb == b && nc == c && final(self).hist_idx == old(self).hist_idx;
                match key {
                    Key::Enter => (a matches EditAction::Submit(l) && l@ == b) && nb.len() == 0 && nc == 0
                        && final(self).hist_idx.is_none(),
                    Key::Backspace => if c > 0 {
                        a is Redraw && nb == b.remove(c - 1) && nc == c - 1 && final(self).hist_idx == old(self).hist_idx
                    } else {
                        a is Nothing && same
                    },
                    Key::Delete => if c < b.len() {
                        a is Redraw && nb == b.remove(c) && nc == c && final(self).hist_idx == old(self).hist_idx
                    } else {
                        a is Nothing && same
                    },
                    Key::Left => if c > 0 {
                        a is Redraw && nb == b && nc == c - 1 && final(self).hist_idx == old(self).hist_idx
                    } else {
                        a is Nothing && same
                    },
                    Key::Right => if c < b.len() {
                        a is Redraw && nb == b && nc == c + 1 && final(self).hist_idx == old(self).hist_idx
                    } else {
                        a is Nothing && same
                    },
                    Key::Home => a is Redraw && nb == b && nc == 0 && final(self).hist_idx == old(self).hist_idx,
                    Key::End => a is Redraw && nb == b && nc == b.len() && final(self).hist_idx == old(self).hist_idx,
                    Key::KillLine => a is Redraw && nb.len() == 0 && nc == 0 && final(self).hist_idx == old(self).hist_idx,
                    Key::KillToEnd => a is Redraw && nb == b.take(c) && nc == c && final(self).hist_idx
                        == old(self).hist_idx,
                    Key::DeleteWord => {
                        let start = word_run_start(b, ws_run_start(b, c));
                        a is Redraw && nc == start && nb == b.take(start) + b.skip(c) && final(self).hist_idx
                            == old(self).hist_idx
                    },
                    Key::Tab => a is Complete && same,
                    Key::EndOfInput => if b.len() == 0 { a is EndOfInput && same } else { a is Nothing && same },
                    Key::Up => if h.len() == 0 {
                        a is Nothing && same
                    } else {
                        let i = match old(self).hist_idx {
                            None => h.len() - 1,
                            Some(j) => if j == 0 { 0 } else { j - 1 },
                        };
                        a is Redraw && final(self).hist_idx == Some(i as usize) && nb == h[i]@ && nc == nb.len()
                    },
                    Key::Down => match old(self).hist_idx {
                        None => a is Nothing && same,
                        Some(i) => a is Redraw && if i + 1 < h.len() {
                            final(self).hist_idx == Some((i + 1) as usize) && nb == h[i + 1]@ && nc == nb.len()
                        } else {
                            final(self).hist_idx.is_none() && nb.len() == 0 && nc == 0
                        },
                    },
                    Key::Char(ch) => a is Redraw && nb == b.push(ch) && nc == b.len() + 1 && final(self).hist_idx
                        == old(self).hist_idx,
                    Key::Other => a is Nothing && same,
                }
            }),
    {
        match key {
            Key::Enter => {
                let mut line: Vec<u8> = Vec::new();
                std::mem::swap(&mut line, &mut self.buf);
                self.cursor = 0;
                self.hist_idx = None;
                EditAction::Submit(line)
            },
            Key::Backspace => if self.backspace() { EditAction::Redraw } else { EditAction::Nothing },
            Key::Home => {
                self.home();
                EditAction::Redraw
            },
            Key::End => {
                self.end();
                EditAction::Redraw
            },
            Key::KillLine => {
                self.kill_line();
                EditAction::Redraw
            },
            Key::KillToEnd => {
                self.kill_to_end();
                EditAction::Redraw
            },
            Key::DeleteWord => {
                self.delete_word();
                EditAction::Redraw
            },
            Key::Tab => EditAction::Complete,
            Key::EndOfInput => if self.buf.len() == 0 { EditAction::EndOfInput } else { EditAction::Nothing },
            Key::Up => if self.history_prev() { EditAction::Redraw } else { EditAction::Nothing },
            Key::Down => if self.history_next() { EditAction::Redraw } else { EditAction::Nothing },
            Key::Right => if self.move_right() { EditAction::Redraw } else { EditAction::Nothing },
            Key::Left => if self.move_left() { EditAction::Redraw } else { EditAction::Nothing },
            Key::Delete => if self.delete_char() { EditAction::Redraw } else { EditAction::Nothing },
            Key::Char(c) => {
                self.end();
                self.insert(c);
                proof {
                    assert(self.buf@ =~= old(self).buf@.push(c));
                }
                EditAction::Redraw
            },
            Key::Other => EditAction::Nothing,
        }
    }
}

pub fn is_ascii_ws(b: u8) -> (r: bool)
    ensures
        r == ascii_ws(b),
{
    b == 0x20 || b == 0x09 || b == 0x0a || b == 0x0c || b == 0x0d
}

// ---------------------------------------------------------------- completion

/// `p` is a prefix of `s`.
pub open spec fn is_prefix(p: Seq<u8>, s: Seq<u8>) -> bool {
    p.len() <= s.len() && s.take(p.len() as int) == p
}

/// The names of `ns` that start with `p`, in order.
pub open spec fn filter_prefixed(ns: Seq<Seq<u8>>, p: Seq<u8>) -> Seq<Seq<u8>>
    decreases ns.len(),
{
    if ns.len() == 0 {
        Seq::empty()
    } else {
        let r = filter_prefixed(ns.drop_last(), p);
        if is_prefix(p, ns.last()) { r.push(ns.last()) } else { r }
    }
}

/// `ms` followed by the names of `bs` that start with `p` and are not in it yet.
pub open spec fn add_missing(ms: Seq<Seq<u8>>, bs: Seq<Seq<u8>>, p: Seq<u8>) -> Seq<Seq<u8>>
    decreases bs.len(),
{
    if bs.len() == 0 {
        ms
    } else {
        let r = add_missing(ms, bs.drop_last(), p);
        if is_prefix(p, bs.last()) && !r.contains(bs.last()) { r.push(bs.last()) } else { r }
    }
}

/// The names of the shell's builtins, in the order completion offers them.
pub open spec fn builtin_names() -> Seq<Seq<u8>> {
    seq![
        seq![0x63u8, 0x64u8],
        seq![0x70u8, 0x77u8, 0x64u8],
        seq![0x65u8, 0x63u8, 0x68u8, 0x6fu8],
        seq![0x65u8, 0x78u8, 0x69u8, 0x74u8],
        seq![0x68u8, 0x69u8, 0x73u8, 0x74u8, 0x6fu8, 0x72u8, 0x79u8],
        seq![0x6au8, 0x6fu8, 0x62u8, 0x73u8],
        seq![0x66u8, 0x67u8],
        seq![0x62u8, 0x67u8],
        seq![0x6bu8, 0x69u8, 0x6cu8, 0x6cu8],
        seq![0x68u8, 0x65u8, 0x6cu8, 0x70u8],
        seq![0x63u8, 0x6cu8, 0x65u8, 0x61u8, 0x72u8],
    ]
}

/// The completions of `p`: program names, then builtins not among them.
pub open spec fn completions(names: Seq<Seq<u8>>, p: Seq<u8>) -> Seq<Seq<u8>> {
    add_missing(filter_prefixed(names, p), builtin_names(), p)
}

/// Start of the word that ends at `c`: just past the last space, `|` or `<` before it.
pub open spec fn word_start(buf: Seq<u8>, c: int) -> int
    decreases c,
{
    if c <= 0 || c > buf.len() {
        0
    } else if buf[c - 1] == 0x20 || buf[c - 1] == 0x7c || buf[c - 1] == 0x3c {
        c
    } else {
        word_start(buf, c - 1)
    }
}

proof fn lemma_word_start(buf: Seq<u8>, c: int)
    requires
        0 <= c <= buf.len(),
    ensures
        0 <= word_start(buf, c) <= c,
    decreases c,
{
    if c > 0 {
        lemma_word_start(buf, c - 1);
    }
}

fn vec_of(a: &[u8]) -> (v: Vec<u8>)
    ensures
        v@ == a@,
{
    clone_bytes(a)
}

fn builtin_names_vec() -> (v: Vec<Vec<u8>>)
    ensures
        lines_view(v@) == builtin_names(),
{
    let mut v: Vec<Vec<u8>> = Vec::new();
    v.push(vec_of(&[0x63u8, 0x64]));
    v.push(vec_of(&[0x70u8, 0x77, 0x64]));
    v.push(vec_of(&[0x65u8, 0x63, 0x68, 0x6f]));
    v.push(vec_of(&[0x65u8, 0x78, 0x69, 0x74]));
    v.push(vec_of(&[0x68u8, 0x69, 0x73, 0x74, 0x6f, 0x72, 0x79]));
    v.push(vec_of(&[0x6au8, 0x6f, 0x62, 0x73]));
    v.push(vec_of(&[0x66u8, 0x67]));
    v.push(vec_of(&[0x62u8, 0x67]));
    v.push(vec_of(&[0x6bu8, 0x69, 0x6c, 0x6c]));
    v.push(vec_of(&[0x68u8, 0x65, 0x6c, 0x70]));
    v.push(vec_of(&[0x63u8, 0x6c, 0x65, 0x61, 0x72]));
    assert(lines_view(v@) =~= builtin_names());
    v
}

fn has_prefix(p: &[u8], s: &[u8]) -> (b: bool)
    ensures
        b == is_prefix(p@, s@),
{
    if p.len() > s.len() {
        return false;
    }
    let mut k: usize = 0;
    while k < p.len()
        invariant
            k <= p@.len(),
            p@.len() <= s@.len(),
            forall|j: int| 0 <= j < k ==> s@[j] == p@[j],
        decreases p@.len() - k,
    {
        if p[k] != s[k] {
            assert(s@.take(p@.len() as int)[k as int] != p@[k as int]);
            return false;
        }
        k = k + 1;
    }
    assert(s@.take(p@.len() as int) =~= p@);
    true
}

fn same_bytes(a: &[u8], b: &[u8]) -> (r: bool)
    ensures
        r == (a@ == b@),
{
    if a.len() != b.len() {
        return false;
    }
    let r = has_prefix(a, b);
    proof {
        if r {
            assert(b@.take(a@.len() as int) =~= b@);
        }
        if a@ == b@ {
            assert(b@.take(a@.len() as int) =~= a@);
        }
    }
    r
}

fn contains_line(ms: &Vec<Vec<u8>>, x: &[u8]) -> (b: bool)
    ensures
        b == lines_view(ms@).contains(x@),
{
    let mut k: usize = 0;
    while k < ms.len()
        invariant
            k <= ms@.len(),
            forall|j: int| 0 <= j < k ==> ms@[j]@ != x@,
        decreases ms@.len() - k,
    {
        if same_bytes(ms[k].as_slice(), x) {
            assert(lines_view(ms@)[k as int] == x@);
            return true;
        }
        k = k + 1;
    }
    proof {
        if lines_view(ms@).contains(x@) {
            let j = choose|j: int| 0 <= j < lines_view(ms@).len() && lines_view(ms@)[j] == x@;
            assert(ms@[j]@ == x@);
        }
    }
    false
}

/// The completions of the prefix `p` among `names` and the builtins.
pub fn completion_candidates(names: &Vec<Vec<u8>>, p: &[u8]) -> (r: Vec<Vec<u8>>)
    ensures
        lines_view(r@) == completions(lines_view(names@), p@),
{
    let ghost ns = lines_view(names@);
    let mut ms: Vec<Vec<u8>> = Vec::new();
    let mut k: usize = 0;
    assert(lines_view(ms@) =~= filter_prefixed(ns.take(0), p@));
    while k < names.len()
        invariant
            ns == lines_view(names@),
            k <= names@.len(),
            lines_view(ms@) == filter_prefixed(ns.take(k as int), p@),
        decreases names@.len() - k,
    {
        assert(ns.take(k + 1).drop_last() =~= ns.take(k as int));
        assert(ns.take(k + 1).last() == names@[k as int]@);
        if has_prefix(p, names[k].as_slice()) {
            let ghost before = lines_view(ms@);
            ms.push(clone_bytes(names[k].as_slice()));
            assert(lines_view(ms@) =~= before.push(names@[k as int]@));
        }
        k = k + 1;
    }
    assert(ns.take(k as int) =~= ns);
    let ghost base = lines_view(ms@);
    let bs = builtin_names_vec();
    let ghost bv = lines_view(bs@);
    let mut j: usize = 0;
    assert(bv.take(0) =~= Seq::<Seq<u8>>::empty());
    while j < bs.len()
        invariant
            bv == lines_view(bs@),
            bv == builtin_names(),
            j <= bs@.len(),
            lines_view(ms@) == add_missing(base, bv.take(j as int), p@),
        decreases bs@.len() - j,
    {
        assert(bv.take(j + 1).drop_last() =~= bv.take(j as int));
        assert(bv.take(j + 1).last() == bs@[j as int]@);
        let b = bs[j].as_slice();
        if has_prefix(p, b) && !contains_line(&ms, b) {
            let ghost before = lines_view(ms@);
            ms.push(clone_bytes(b));
            assert(lines_view(ms@) =~= before.push(bs@[j as int]@));
        }
        j = j + 1;
    }
    assert(bv.take(j as int) =~= bv);
    ms
}

impl LineEditor {
    /// Tab completion of the word before the cursor against `names`: a
    /// single completion replaces the word and adds a space. Returns the
    /// completions found.
    pub fn complete(&mut self, names: &Vec<Vec<u8>>) -> (r: Vec<Vec<u8>>)
        requires
            old(self).wf(),
        ensures
            final(self).wf(),
            ({
                let b = old(self).buf@;
                let c = old(self).cursor as int;
                let start = word_start(b, c);
                let cs = completions(lines_view(names@), b.subrange(start, c));
                &&& lines_view(r@) == cs
                &&& cs.len() == 1 ==> final(self).buf@ == b.take(start) + cs[0] + seq![0x20u8] + b.skip(c)
                    && final(self).cursor == start + cs[0].len() + 1
                &&& cs.len() != 1 ==> final(self).buf@ == b && final(self).cursor == c
            }),
            final(self).history@ == old(self).history@,
            final(self).hist_idx == old(self).hist_idx,
    {
        let ghost b = self.buf@;
        let c = self.cursor;
        let mut start: usize = c;
        while start > 0 && !(self.buf[start - 1] == 0x20 || self.buf[start - 1] == 0x7c || self.buf[start - 1] == 0x3c)
            invariant
                start <= c,
                c <= b.len(),
                b == self.buf@,
                word_start(b, start as int) == word_start(b, c as int),
            decreases start,
        {
            start = start - 1;
        }
        assert(word_start(b, start as int) == start);
        let mut prefix: Vec<u8> = Vec::new();
        let mut k: usize = start;
        while k < c
            invariant
                start <= k <= c,
                c <= b.len(),
                b == self.buf@,
                prefix@ == b.subrange(start as int, k as int),
            decreases c - k,
        {
            prefix.push(self.buf[k]);
            assert(b.subrange(start as int, k + 1) =~= b.subrange(start as int, k as int).push(b[k as int]));
            k = k + 1;
        }
        let cands = completion_candidates(names, prefix.as_slice());
        if cands.len() == 1 {
            let name = &cands[0];
            assert(lines_view(cands@)[0] == name@);
            let mut nb: Vec<u8> = Vec::new();
            let mut i: usize = 0;
            while i < start
                invariant
                    i <= start <= c <= b.len(),
                    b == self.buf@,
                    nb@ == b.take(i as int),
                decreases start - i,
            {
                nb.push(self.buf[i]);
                assert(b.take(i + 1) =~= b.take(i as int).push(b[i as int]));
                i = i + 1;
            }
            let mut j: usize = 0;
            while j < name.len()
                invariant
                    j <= name@.len(),
                    nb@ == b.take(start as int) + name@.take(j as int),
                decreases name@.len() - j,
            {
                nb.push(name[j]);
                assert(name@.take(j + 1) =~= name@.take(j as int).push(name@[j as int]));
                assert(nb@ =~= b.take(start as int) + name@.take(j + 1));
                j = j + 1;
            }
            assert(name@.take(j as int) =~= name@);
            nb.push(0x20);
            let mid = nb.len();
            let mut t: usize = c;
            while t < self.buf.len()
                invariant
                    c <= t <= b.len(),
                    b == self.buf@,
                    nb@ == b.take(start as int) + name@ + seq![0x20u8] + b.subrange(c as int, t as int),
                decreases b.len() - t,
            {
                nb.push(self.buf[t]);
                assert(b.subrange(c as int, t + 1) =~= b.subrange(c as int, t as int).push(b[t as int]));
                assert(nb@ =~= b.take(start as int) + name@ + seq![0x20u8] + b.subrange(c as int, t + 1));
                t = t + 1;
            }
            assert(b.subrange(c as int, b.len() as int) =~= b.skip(c as int));
            self.buf = nb;
            self.cursor = mid;
        }
        cands
    }
}

/// What redrawing the line sends to the terminal: return to column 0,
/// clear the line, the prompt, the line, and a move back to the cursor
/// when it is not at the end.
pub open spec fn refresh_spec(prompt: Seq<u8>, buf: Seq<u8>, cursor: int) -> Seq<u8> {
    let head = seq![CR, ESC, 0x5bu8, 0x4bu8] + prompt + buf;
    if cursor < buf.len() {
        head + seq![ESC, 0x5bu8] + crate::syscall_fs::decimal((buf.len() - cursor) as nat) + seq![0x44u8]
    } else {
        head
    }
}

impl LineEditor {
    /// The bytes that redraw the prompt and the line being edited.
    pub fn refresh_bytes(&self, prompt: &[u8]) -> (r: Vec<u8>)
        requires
            self.wf(),
        ensures
            r@ == refresh_spec(prompt@, self.buf@, self.cursor as int),
    {
        let mut out: Vec<u8> = Vec::new();
        out.push(CR);
        out.push(ESC);
        out.push(0x5b);
        out.push(0x4b);
        let mut p = clone_bytes(prompt);
        out.append(&mut p);
        let mut l = clone_bytes(self.buf.as_slice());
        out.append(&mut l);
        assert(out@ =~= seq![CR, ESC, 0x5bu8, 0x4bu8] + prompt@ + self.buf@);
        if self.cursor < self.buf.len() {
            out.push(ESC);
            out.push(0x5b);
            crate::syscall_fs::push_decimal(&mut out, self.buf.len() - self.cursor);
            out.push(0x44);
        }
        out
    }
}

/// One line of the `history` listing: the entry's number right-aligned
/// in four columns, two spaces, the entry.
pub open spec fn history_line_spec(n: nat, line: Seq<u8>) -> Seq<u8> {
    let d = crate::syscall_fs::decimal(n);
    let pad = if d.len() < 4 { Seq::new((4 - d.len()) as nat, |i: int| 0x20u8) } else { Seq::empty() };
    pad + d + seq![0x20u8, 0x20u8] + line
}

pub fn history_line(n: usize, line: &[u8]) -> (r: Vec<u8>)
    ensures
        r@ == history_line_spec(n as nat, line@),
{
    let mut d: Vec<u8> = Vec::new();
    crate::syscall_fs::push_decimal(&mut d, n);
    assert(d@ =~= crate::syscall_fs::decimal(n as nat));
    let mut out: Vec<u8> = Vec::new();
    let mut k: usize = d.len();
    while k < 4
        invariant
            d@.len() <= k <= 4 || (k == d@.len() && k >= 4),
            out@ == Seq::new((k - d@.len()) as nat, |i: int| 0x20u8),
        decreases 4 - k,
    {
        out.push(0x20);
        assert(out@ =~= Seq::new((k + 1 - d@.len()) as nat, |i: int| 0x20u8));
        k = k + 1;
    }
    let ghost pad = out@;
    assert(pad =~= (if d@.len() < 4 { Seq::new((4 - d@.len()) as nat, |i: int| 0x20u8) } else { Seq::empty() }));
    out.append(&mut d);
    out.push(0x20);
    out.push(0x20);
    let mut l = clone_bytes(line);
    out.append(&mut l);
    assert(out@ =~= history_line_spec(n as nat, line@));
    out
}

/// The history never holds more than `MAX_HISTORY` lines, and after a
/// non-empty line is entered it is the newest one.
pub proof fn lemma_history_add(h: Seq<Seq<u8>>, line: Seq<u8>)
    requires
        h.len() <= MAX_HISTORY,
    ensures
        history_add_spec(h, line).len() <= MAX_HISTORY,
        line.len() > 0 ==> history_add_spec(h, line).last() == line,
        line.len() > 0 && !(h.len() > 0 && h.last() == line) && h.len() < MAX_HISTORY
            ==> history_add_spec(h, line) == h.push(line),
{
}

} // verus!
