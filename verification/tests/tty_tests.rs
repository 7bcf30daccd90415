use rcore_os::tty::{
    sys_tty_ctl, TtyInner, BS, CR, CTRL_C, CTRL_D, DEL, LF, SIGINT, TTY_CTL_GET_FLAGS,
    TTY_CTL_SET_FLAGS, TTY_ECHO, TTY_ICANON, TTY_ISIG,
};

fn type_bytes(t: &mut TtyInner, bytes: &[u8]) -> Vec<u8> {
    let (_sig, echo, _ready) = t.receive(bytes);
    echo
}

#[test]
fn new_terminal_is_canonical_with_echo_and_signals() {
    let t = TtyInner::new();
    assert_eq!(t.get_flags(), TTY_ECHO | TTY_ICANON | TTY_ISIG);
    assert_eq!(t.get_fg_pgrp(), 0);
    assert!(!t.has_data());
}

#[test]
fn canonical_line_is_echoed_and_read_back() {
    let mut t = TtyInner::new();
    let echo = type_bytes(&mut t, b"ls -l");
    assert_eq!(echo, b"ls -l".to_vec());
    assert!(!t.has_data());
    let (sig, echo, ready) = t.receive(&[CR]);
    assert_eq!(sig, None);
    assert_eq!(echo, vec![LF]);
    assert!(ready);
    assert_eq!(t.read_input(64, 0), Some(b"ls -l".to_vec()));
    assert_eq!(t.read_input(64, 0), None);
}

#[test]
fn long_line_is_read_in_pieces() {
    let mut t = TtyInner::new();
    type_bytes(&mut t, b"abcdef\n");
    assert_eq!(t.read_input(4, 0), Some(b"abcd".to_vec()));
    assert_eq!(t.read_input(4, 0), Some(b"ef".to_vec()));
    assert_eq!(t.read_input(4, 0), None);
}

#[test]
fn backspace_and_delete_erase_with_echo() {
    let mut t = TtyInner::new();
    type_bytes(&mut t, b"ab");
    let (_, echo) = t.push_byte(BS);
    assert_eq!(echo, vec![BS, b' ', BS]);
    let (_, echo) = t.push_byte(DEL);
    assert_eq!(echo, vec![BS, b' ', BS]);
    let (_, echo) = t.push_byte(BS);
    assert!(echo.is_empty());
    assert!(t.line.is_empty());
}

#[test]
fn ctrl_c_discards_line_and_raises_sigint() {
    let mut t = TtyInner::new();
    type_bytes(&mut t, b"sleep 10");
    let (sig, echo) = t.push_byte(CTRL_C);
    assert_eq!(sig, Some(SIGINT));
    assert_eq!(echo, vec![b'^', b'C', CR, LF]);
    assert!(t.line.is_empty());
    assert!(!t.has_data());
}

#[test]
fn ctrl_c_is_input_without_isig() {
    let mut t = TtyInner::new();
    t.set_flags(0);
    let (sig, echo) = t.push_byte(CTRL_C);
    assert_eq!(sig, None);
    assert!(echo.is_empty());
    assert_eq!(t.read_input(8, 0), Some(vec![CTRL_C]));
}

#[test]
fn ctrl_d_on_empty_line_is_end_of_input_once() {
    let mut t = TtyInner::new();
    t.push_byte(CTRL_D);
    assert!(t.eof);
    assert!(t.has_data());
    assert_eq!(t.read_input(8, 0), Some(vec![]));
    assert!(!t.eof);
    assert_eq!(t.read_input(8, 0), None);
}

#[test]
fn ctrl_d_flushes_partial_line() {
    let mut t = TtyInner::new();
    type_bytes(&mut t, b"ab");
    t.push_byte(CTRL_D);
    assert!(!t.eof);
    assert_eq!(t.read_input(8, 0), Some(b"ab".to_vec()));
}

#[test]
fn control_bytes_are_ignored_in_canonical_mode() {
    let mut t = TtyInner::new();
    let (sig, echo) = t.push_byte(0x01);
    assert_eq!(sig, None);
    assert!(echo.is_empty());
    assert!(t.line.is_empty());
}

#[test]
fn no_echo_when_echo_is_off() {
    let mut t = TtyInner::new();
    t.set_flags(TTY_ICANON);
    let echo = type_bytes(&mut t, b"secret\r");
    assert!(echo.is_empty());
    assert_eq!(t.read_input(16, 0), Some(b"secret".to_vec()));
}

#[test]
fn raw_mode_delivers_bytes_immediately() {
    let mut t = TtyInner::new();
    t.set_flags(TTY_ISIG);
    let echo = type_bytes(&mut t, b"xy\r");
    assert!(echo.is_empty());
    assert!(t.has_data());
    assert_eq!(t.read_input(2, 0), Some(b"xy".to_vec()));
    assert_eq!(t.read_input(2, 0), Some(vec![CR]));
    assert_eq!(t.read_input(2, 0), None);
}

#[test]
fn background_reader_gets_nothing() {
    let mut t = TtyInner::new();
    t.set_fg_pgrp(5);
    type_bytes(&mut t, b"hi\n");
    assert_eq!(t.read_input(8, 6), Some(vec![]));
    assert_eq!(t.read_input(8, 5), Some(b"hi".to_vec()));
}

#[test]
fn zero_length_read_returns_nothing() {
    let mut t = TtyInner::new();
    type_bytes(&mut t, b"hi\n");
    assert_eq!(t.read_input(0, 0), Some(vec![]));
    assert_eq!(t.read_input(8, 0), Some(b"hi".to_vec()));
}

#[test]
fn batch_keeps_last_signal() {
    let mut t = TtyInner::new();
    let (sig, echo, ready) = t.receive(&[b'a', CTRL_C, b'b', LF]);
    assert_eq!(sig, Some(SIGINT));
    assert_eq!(echo, vec![b'a', b'^', b'C', CR, LF, b'b', LF]);
    assert!(ready);
    assert_eq!(t.read_input(8, 0), Some(b"b".to_vec()));
}

#[test]
fn signals_go_to_foreground_group() {
    let mut t = TtyInner::new();
    assert_eq!(t.signal_target(), None);
    t.set_fg_pgrp(9);
    assert_eq!(t.signal_target(), Some(9));
}

#[test]
fn tty_ctl_reads_and_sets_flags() {
    let mut t = TtyInner::new();
    assert_eq!(sys_tty_ctl(&mut t, 0, TTY_CTL_GET_FLAGS, 0), (TTY_ECHO | TTY_ICANON | TTY_ISIG) as isize);
    assert_eq!(sys_tty_ctl(&mut t, 0, TTY_CTL_SET_FLAGS, TTY_ISIG), 0);
    assert_eq!(t.get_flags(), TTY_ISIG);
    assert_eq!(sys_tty_ctl(&mut t, 0, 3, 0), -1);
    assert_eq!(t.get_flags(), TTY_ISIG);
}
