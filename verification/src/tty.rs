//! The terminal line discipline: canonical line editing, echo, Ctrl-C and
//! Ctrl-D, raw mode, and the foreground process group.

use vstd::prelude::*;
use std::collections::VecDeque;

verus! {

/// Echo typed characters back to the terminal.
pub const TTY_ECHO: usize = 1;
/// Canonical mode: input is delivered a whole line at a time.
pub const TTY_ICANON: usize = 2;
/// Ctrl-C raises SIGINT instead of being delivered as input.
pub const TTY_ISIG: usize = 4;

pub const TTY_CTL_GET_FLAGS: usize = 1;
pub const TTY_CTL_SET_FLAGS: usize = 2;

/// Bit of the interrupt signal among the signal flags.
pub const SIGINT: u32 = 4;

pub const CTRL_C: u8 = 0x03;
pub const CTRL_D: u8 = 0x04;
pub const LF: u8 = 0x0a;
pub const CR: u8 = 0x0d;
pub const BS: u8 = 0x08;
pub const DEL: u8 = 0x7f;

/// State of the terminal.
pub struct TtyInner {
    pub flags: usize,
    /// The line being edited (canonical mode).
    pub line: Vec<u8>,
    /// Completed lines not read yet (canonical mode).
    pub lines: VecDeque<Vec<u8>>,
    /// Bytes not read yet (raw mode).
    pub raw_buf: VecDeque<u8>,
    /// Ctrl-D was typed on an empty line and not read yet.
    pub eof: bool,
    /// Foreground process group; 0 when none was set.
    pub fg_pgrp: usize,
}

/// Abstract state of the terminal.
pub struct TtyState {
    pub flags: usize,
    pub line: Seq<u8>,
    pub lines: Seq<Seq<u8>>,
    pub raw_buf: Seq<u8>,
    pub eof: bool,
    pub fg_pgrp: usize,
}

impl View for TtyInner {
    type V = TtyState;

    open spec fn view(&self) -> TtyState {
        TtyState {
            flags: self.flags,
            line: self.line@,
            lines: self.lines@.map_values(|l: Vec<u8>| l@),
            raw_buf: self.raw_buf@,
            eof: self.eof,
            fg_pgrp: self.fg_pgrp,
        }
    }
}

/// What typing byte `ch` on a terminal in state `s` does: the next state,
/// the signal raised (if any) and the bytes echoed back.
pub open spec fn push_byte_spec(s: TtyState, ch: u8) -> (TtyState, Option<u32>, Seq<u8>) {
    let echo = s.flags & TTY_ECHO != 0;
    if s.flags & TTY_ISIG != 0 && ch == CTRL_C {
        (TtyState { line: Seq::empty(), ..s }, Some(SIGINT), seq![0x5eu8, 0x43u8, CR, LF])
    } else if s.flags & TTY_ICANON != 0 {
        if ch == CR || ch == LF {
            (
                TtyState { line: Seq::empty(), lines: s.lines.push(s.line), ..s },
                None,
                if echo { seq![LF] } else { Seq::empty() },
            )
        } else if ch == BS || ch == DEL {
            if s.line.len() > 0 {
                (
                    TtyState { line: s.line.drop_last(), ..s },
                    None,
                    if echo { seq![BS, 0x20u8, BS] } else { Seq::empty() },
                )
            } else {
                (s, None, Seq::empty())
            }
        } else if ch == CTRL_D {
            if s.line.len() == 0 {
                (TtyState { eof: true, ..s }, None, Seq::empty())
            } else {
                (TtyState { line: Seq::empty(), lines: s.lines.push(s.line), ..s }, None, Seq::empty())
            }
        } else if ch >= 0x20 {
            (TtyState { line: s.line.push(ch), ..s }, None, if echo { seq![ch] } else { Seq::empty() })
        } else {
            (s, None, Seq::empty())
        }
    } else {
        (TtyState { raw_buf: s.raw_buf.push(ch), ..s }, None, Seq::empty())
    }
}

/// Feeding `bytes` one after another: the final state, the last signal
/// raised, and everything echoed.
pub open spec fn receive_spec(s: TtyState, bytes: Seq<u8>) -> (TtyState, Option<u32>, Seq<u8>)
    decreases bytes.len(),
{
    if bytes.len() == 0 {
        (s, None, Seq::empty())
    } else {
        let (s1, sig1, echo1) = receive_spec(s, bytes.drop_last());
        let (s2, sig2, echo2) = push_byte_spec(s1, bytes.last());
        (s2, if sig2.is_some() { sig2 } else { sig1 }, echo1 + echo2)
    }
}

/// Input is ready for a reader.
pub open spec fn has_data_spec(s: TtyState) -> bool {
    s.lines.len() > 0 || s.raw_buf.len() > 0 || s.eof
}

/// What a read of at most `want` bytes by a process of group `reader_pgrp`
/// finds: `None` when it has to wait for input, else the bytes it gets
/// (none: end of input, or a reader outside the foreground group) and the next state.
pub open spec fn read_spec(s: TtyState, want: usize, reader_pgrp: usize) -> (TtyState, Option<Seq<u8>>) {
    if want == 0 {
        (s, Some(Seq::empty()))
    } else if s.fg_pgrp != 0 && reader_pgrp != s.fg_pgrp {
        (s, Some(Seq::empty()))
    } else if s.flags & TTY_ICANON != 0 {
        if s.lines.len() > 0 {
            let line = s.lines[0];
            if line.len() <= want {
                (TtyState { lines: s.lines.drop_first(), ..s }, Some(line))
            } else {
                (
                    TtyState { lines: s.lines.update(0, line.skip(want as int)), ..s },
                    Some(line.take(want as int)),
                )
            }
        } else if s.eof {
            (TtyState { eof: false, ..s }, Some(Seq::empty()))
        } else {
            (s, None)
        }
    } else if s.raw_buf.len() > 0 {
        let n = if s.raw_buf.len() < want { s.raw_buf.len() as int } else { want as int };
        (TtyState { raw_buf: s.raw_buf.skip(n), ..s }, Some(s.raw_buf.take(n)))
    } else {
        (s, None)
    }
}

impl TtyInner {
    /// A terminal in canonical mode with echo and signals, nothing typed yet.
    pub fn new() -> (t: Self)
        ensures
            t@ == (TtyState {
                flags: TTY_ECHO | TTY_ICANON | TTY_ISIG,
                line: Seq::empty(),
                lines: Seq::empty(),
                raw_buf: Seq::empty(),
                eof: false,
                fg_pgrp: 0,
            }),
    {
        let t = TtyInner {
            flags: TTY_ECHO | TTY_ICANON | TTY_ISIG,
            line: Vec::new(),
            lines: VecDeque::new(),
            raw_buf: VecDeque::new(),
            eof: false,
            fg_pgrp: 0,
        };
        assert(t@.lines =~= Seq::<Seq<u8>>::empty());
        t
    }

    /// Feeds one typed byte into the line discipline. Returns the signal
    /// to raise (Ctrl-C) and the bytes to echo to the terminal.
    pub fn push_byte(&mut self, ch: u8) -> (r: (Option<u32>, Vec<u8>))
        ensures
            final(self)@ == push_byte_spec(old(self)@, ch).0,
            r.0 == push_byte_spec(old(self)@, ch).1,
            r.1@ == push_byte_spec(old(self)@, ch).2,
    {
        let ghost s = self@;
        let mut echo: Vec<u8> = Vec::new();
        let echo_on = self.flags & TTY_ECHO != 0;
        if self.flags & TTY_ISIG != 0 && ch == CTRL_C {
            echo.push(0x5e);
            echo.push(0x43);
            echo.push(CR);
            echo.push(LF);
            self.line = Vec::new();
            assert(echo@ =~= seq![0x5eu8, 0x43u8, CR, LF]);
            return (Some(SIGINT), echo);
        }
        if self.flags & TTY_ICANON != 0 {
            if ch == CR || ch == LF {
                if echo_on {
                    echo.push(LF);
                }
                let mut line: Vec<u8> = Vec::new();
                    std::mem::swap(&mut line, &mut self.line);
                self.lines.push_back(line);
                proof {
                    assert(self@.lines =~= s.lines.push(s.line));
                    assert(echo@ =~= (if echo_on { seq![LF] } else { Seq::empty() }));
                }
            } else if ch == BS || ch == DEL {
                if self.line.len() > 0 {
                    self.line.pop();
                    if echo_on {
                        echo.push(BS);
                        echo.push(0x20);
                        echo.push(BS);
                    }
                    proof {
                        assert(self@.line =~= s.line.drop_last());
                        assert(echo@ =~= (if echo_on { seq![BS, 0x20u8, BS] } else { Seq::empty() }));
                        assert(self@.lines =~= s.lines);
                    }
                }
            } else if ch == CTRL_D {
                if self.line.len() == 0 {
                    self.eof = true;
                } else {
                    let mut line: Vec<u8> = Vec::new();
                    std::mem::swap(&mut line, &mut self.line);
                    self.lines.push_back(line);
                    assert(self@.lines =~= s.lines.push(s.line));
                }
            } else if ch >= 0x20 {
                if echo_on {
                    echo.push(ch);
                }
                self.line.push(ch);
                assert(echo@ =~= (if echo_on { seq![ch] } else { Seq::empty() }));
            }
        } else {
            self.raw_buf.push_back(ch);
        }
        proof {
            assert(self@.lines =~= push_byte_spec(s, ch).0.lines);
            assert(echo@ =~= push_byte_spec(s, ch).2);
        }
        (None, echo)
    }

    /// Input is ready for a reader.
    pub fn has_data(&self) -> (b: bool)
        ensures
            b == has_data_spec(self@),
    {
        self.lines.len() > 0 || self.raw_buf.len() > 0 || self.eof
    }

    /// Feeds a batch of received bytes; returns the last signal raised, the
    /// bytes to echo, and whether input is ready for a reader afterwards.
    pub fn receive(&mut self, bytes: &[u8]) -> (r: (Option<u32>, Vec<u8>, bool))
        ensures
            final(self)@ == receive_spec(old(self)@, bytes@).0,
            r.0 == receive_spec(old(self)@, bytes@).1,
            r.1@ == receive_spec(old(self)@, bytes@).2,
            r.2 == has_data_spec(final(self)@),
    {
        let ghost s0 = self@;
        let mut signal: Option<u32> = None;
        let mut echo: Vec<u8> = Vec::new();
        let mut i: usize = 0;
        while i < bytes.len()
            invariant
                i <= bytes.len(),
                s0 == old(self)@,
                self@ == receive_spec(s0, bytes@.take(i as int)).0,
                signal == receive_spec(s0, bytes@.take(i as int)).1,
                echo@ == receive_spec(s0, bytes@.take(i as int)).2,
            decreases bytes.len() - i,
        {
            proof {
                assert(bytes@.take(i + 1).drop_last() =~= bytes@.take(i as int));
                assert(bytes@.take(i + 1).last() == bytes@[i as int]);
            }
            let (sig, out) = self.push_byte(bytes[i]);
            if sig.is_some() {
                signal = sig;
            }
            let mut out = out;
            echo.append(&mut out);
            i = i + 1;
        }
        proof {
            assert(bytes@.take(i as int) =~= bytes@);
        }
        let ready = self.has_data();
        (signal, echo, ready)
    }

    /// One attempt of a read of at most `want` bytes by a process of group
    /// `reader_pgrp`: `None` when the reader has to wait for input, else the
    /// bytes it gets. In canonical mode one line at most is returned; what
    /// does not fit stays at the head of the queue.
    pub fn read_input(&mut self, want: usize, reader_pgrp: usize) -> (r: Option<Vec<u8>>)
        ensures
            final(self)@ == read_spec(old(self)@, want, reader_pgrp).0,
            match r {
                Some(v) => read_spec(old(self)@, want, reader_pgrp).1 == Some(v@),
                None => read_spec(old(self)@, want, reader_pgrp).1.is_none(),
            },
    {
        let ghost s = self@;
        if want == 0 {
            return Some(Vec::new());
        }
        if self.fg_pgrp != 0 && reader_pgrp != self.fg_pgrp {
            return Some(Vec::new());
        }
        if self.flags & TTY_ICANON != 0 {
            if self.lines.len() > 0 {
                let mut line = self.lines.pop_front().unwrap();
                proof {
                    assert(line@ == s.lines[0]);
                    assert(self@.lines =~= s.lines.drop_first());
                }
                if line.len() <= want {
                    return Some(line);
                }
                let rest = line.split_off(want);
                self.lines.push_front(rest);
                proof {
                    assert(self@.lines =~= s.lines.update(0, s.lines[0].skip(want as int)));
                }
                return Some(line);
            }
            if self.eof {
                self.eof = false;
                return Some(Vec::new());
            }
            None
        } else {
            let n = if self.raw_buf.len() < want { self.raw_buf.len() } else { want };
            if n == 0 {
                return None;
            }
            let mut out: Vec<u8> = Vec::new();
            let mut k: usize = 0;
            assert(s.raw_buf.skip(0) =~= s.raw_buf);
            assert(s.raw_buf.take(0) =~= Seq::<u8>::empty());
            while k < n
                invariant
                    k <= n,
                    n <= s.raw_buf.len(),
                    self@ == (TtyState { raw_buf: s.raw_buf.skip(k as int), ..s }),
                    out@ == s.raw_buf.take(k as int),
                decreases n - k,
            {
                proof {
                    assert(self.raw_buf@.len() > 0);
                }
                let b = self.raw_buf.pop_front().unwrap();
                out.push(b);
                proof {
                    assert(out@ =~= s.raw_buf.take(k + 1));
                    assert(self.raw_buf@ =~= s.raw_buf.skip(k + 1));
                }
                k = k + 1;
            }
            Some(out)
        }
    }

    pub fn get_flags(&self) -> (f: usize)
        ensures
            f == self.flags,
    {
        self.flags
    }

    pub fn set_flags(&mut self, flags: usize)
        ensures
            final(self)@ == (TtyState { flags, ..old(self)@ }),
    {
        self.flags = flags;
    }

    pub fn set_fg_pgrp(&mut self, pgrp: usize)
        ensures
            final(self)@ == (TtyState { fg_pgrp: pgrp, ..old(self)@ }),
    {
        self.fg_pgrp = pgrp;
    }

    pub fn get_fg_pgrp(&self) -> (p: usize)
        ensures
            p == self.fg_pgrp,
    {
        self.fg_pgrp
    }

    /// Who a terminal signal goes to: the foreground group, or the
    /// current process (`None`) when no foreground group is set.
    pub fn signal_target(&self) -> (g: Option<usize>)
        ensures
            g == (if self.fg_pgrp == 0 { None } else { Some(self.fg_pgrp) }),
    {
        if self.fg_pgrp == 0 {
            None
        } else {
            Some(self.fg_pgrp)
        }
    }
}

/// The terminal control call: read or replace the mode flags.
pub fn sys_tty_ctl(tty: &mut TtyInner, fd: usize, cmd: usize, arg: usize) -> (r: isize)
    ensures
        cmd == TTY_CTL_GET_FLAGS ==> r == old(tty).flags as isize && final(tty)@ == old(tty)@,
        cmd == TTY_CTL_SET_FLAGS ==> r == 0 && final(tty)@ == (TtyState { flags: arg, ..old(tty)@ }),
        cmd != TTY_CTL_GET_FLAGS && cmd != TTY_CTL_SET_FLAGS ==> r == -1 && final(tty)@ == old(tty)@,
{
    if cmd == TTY_CTL_GET_FLAGS {
        tty.get_flags() as isize
    } else if cmd == TTY_CTL_SET_FLAGS {
        tty.set_flags(arg);
        0
    } else {
        -1
    }
}

/// A byte that canonical mode adds to the line being edited.
pub open spec fn printable(b: u8) -> bool {
    b >= 0x20 && b != DEL
}

/// Typing printable text in canonical mode appends it to the line being
/// edited and raises no signal.
pub proof fn lemma_type_text(s: TtyState, text: Seq<u8>)
    requires
        s.flags & TTY_ICANON != 0,
        forall|i: int| 0 <= i < text.len() ==> printable(#[trigger] text[i]),
    ensures
        receive_spec(s, text).0 == (TtyState { line: s.line + text, ..s }),
        receive_spec(s, text).1.is_none(),
    decreases text.len(),
{
    if text.len() == 0 {
        assert(s.line + text =~= s.line);
    } else {
        let p = text.drop_last();
        lemma_type_text(s, p);
        assert(printable(text[text.len() - 1]));
        assert(s.line + p.push(text.last()) =~= s.line + text);
        assert((s.line + p).push(text.last()) =~= s.line + text);
    }
}

/// What a reader gets back of a typed line: in canonical mode, a line of
/// printable text typed on an idle terminal and ended with Enter is read
/// back whole by a foreground reader with room for it.
pub proof fn lemma_line_roundtrip(s: TtyState, text: Seq<u8>, want: usize, reader_pgrp: usize)
    requires
        s.flags & TTY_ICANON != 0,
        s.line.len() == 0,
        s.lines.len() == 0,
        forall|i: int| 0 <= i < text.len() ==> printable(#[trigger] text[i]),
        0 < want,
        text.len() <= want,
        s.fg_pgrp == 0 || reader_pgrp == s.fg_pgrp,
    ensures
        read_spec(receive_spec(s, text.push(LF)).0, want, reader_pgrp).1 == Some(text),
        receive_spec(s, text.push(LF)).1.is_none(),
{
    lemma_type_text(s, text);
    assert(text.push(LF).drop_last() =~= text);
    assert(s.line + text =~= text);
    let t = receive_spec(s, text.push(LF)).0;
    assert(t.lines =~= seq![text]);
}

/// Feeding `a` and then `b` leaves the terminal as feeding `a + b` does.
proof fn lemma_receive_append(s: TtyState, a: Seq<u8>, b: Seq<u8>)
    ensures
        receive_spec(s, a + b).0 == receive_spec(receive_spec(s, a).0, b).0,
    decreases b.len(),
{
    if b.len() == 0 {
        assert(a + b =~= a);
    } else {
        lemma_receive_append(s, a, b.drop_last());
        assert((a + b).drop_last() =~= a + b.drop_last());
        assert((a + b).last() == b.last());
    }
}

/// Typing a printable line and Enter on a canonical terminal with nothing
/// being edited queues the line after those already complete.
proof fn lemma_enter_line(s: TtyState, text: Seq<u8>)
    requires
        s.flags & TTY_ICANON != 0,
        s.line.len() == 0,
        forall|i: int| 0 <= i < text.len() ==> printable(#[trigger] text[i]),
    ensures
        receive_spec(s, text.push(LF)).0 == (TtyState { lines: s.lines.push(text), ..s }),
{
    lemma_type_text(s, text);
    assert(text.push(LF).drop_last() =~= text);
    assert(s.line + text =~= text);
    let t = receive_spec(s, text.push(LF)).0;
    assert(t.lines =~= s.lines.push(text));
    assert(t.line =~= s.line);
}

/// Completed lines are read in the order they were typed: on an idle
/// canonical terminal, after lines `l1` and then `l2` of printable text are
/// typed, each ended with Enter, a foreground read with room for `l1` gets
/// `l1`, and the next read with room for `l2` gets `l2`.
pub proof fn lemma_lines_read_in_order(
    s: TtyState,
    l1: Seq<u8>,
    l2: Seq<u8>,
    want1: usize,
    want2: usize,
    reader_pgrp: usize,
)
    requires
        s.flags & TTY_ICANON != 0,
        s.line.len() == 0,
        s.lines.len() == 0,
        forall|i: int| 0 <= i < l1.len() ==> printable(#[trigger] l1[i]),
        forall|i: int| 0 <= i < l2.len() ==> printable(#[trigger] l2[i]),
        0 < want1,
        l1.len() <= want1,
        0 < want2,
        l2.len() <= want2,
        s.fg_pgrp == 0 || reader_pgrp == s.fg_pgrp,
    ensures
        ({
            let t = receive_spec(s, l1.push(LF) + l2.push(LF)).0;
            let (t1, r1) = read_spec(t, want1, reader_pgrp);
            &&& r1 == Some(l1)
            &&& read_spec(t1, want2, reader_pgrp).1 == Some(l2)
        }),
{
    lemma_receive_append(s, l1.push(LF), l2.push(LF));
    lemma_enter_line(s, l1);
    let s1 = receive_spec(s, l1.push(LF)).0;
    lemma_enter_line(s1, l2);
    let t = receive_spec(s, l1.push(LF) + l2.push(LF)).0;
    assert(t.lines =~= seq![l1, l2]);
    let t1 = read_spec(t, want1, reader_pgrp).0;
    assert(t1.lines =~= seq![l2]);
}

/// A read with less room than the first completed line gets its first
/// `want` bytes, and the next read gets the rest of that same line, before
/// any later line.
pub proof fn lemma_long_line_read_in_parts(s: TtyState, l1: Seq<u8>, l2: Seq<u8>, want: usize, want2: usize, reader_pgrp: usize)
    requires
        s.flags & TTY_ICANON != 0,
        s.line.len() == 0,
        s.lines.len() == 0,
        forall|i: int| 0 <= i < l1.len() ==> printable(#[trigger] l1[i]),
        forall|i: int| 0 <= i < l2.len() ==> printable(#[trigger] l2[i]),
        0 < want < l1.len(),
        l1.len() - want <= want2,
        s.fg_pgrp == 0 || reader_pgrp == s.fg_pgrp,
    ensures
        ({
            let t = receive_spec(s, l1.push(LF) + l2.push(LF)).0;
            let (t1, r1) = read_spec(t, want, reader_pgrp);
            &&& r1 == Some(l1.take(want as int))
            &&& read_spec(t1, want2, reader_pgrp).1 == Some(l1.skip(want as int))
        }),
{
    lemma_receive_append(s, l1.push(LF), l2.push(LF));
    lemma_enter_line(s, l1);
    let s1 = receive_spec(s, l1.push(LF)).0;
    lemma_enter_line(s1, l2);
    let t = receive_spec(s, l1.push(LF) + l2.push(LF)).0;
    assert(t.lines =~= seq![l1, l2]);
    let t1 = read_spec(t, want, reader_pgrp).0;
    assert(t1.lines =~= seq![l1.skip(want as int), l2]);
}

} // verus!
