use rcore_os::editor::{
    completion_candidates, decode_byte, history_add, history_line, DecodeState, EditAction, Key,
    LineEditor, MAX_HISTORY,
};
use std::collections::VecDeque;

fn editor_with(line: &[u8]) -> LineEditor {
    let mut e = LineEditor::new();
    for &b in line {
        e.insert(b);
    }
    e
}

fn keys(bytes: &[u8]) -> Vec<Key> {
    let mut st = DecodeState::Ground;
    let mut out = Vec::new();
    for &b in bytes {
        let (next, k) = decode_byte(st, b);
        st = next;
        if let Some(k) = k {
            out.push(k);
        }
    }
    out
}

#[test]
fn decoding_keys() {
    assert_eq!(keys(b"a\r"), vec![Key::Char(b'a'), Key::Enter]);
    assert_eq!(keys(b"\x1b[A\x1b[B\x1b[C\x1b[D"), vec![Key::Up, Key::Down, Key::Right, Key::Left]);
    assert_eq!(keys(b"\x1b[H\x1b[F\x1b[3~"), vec![Key::Home, Key::End, Key::Delete]);
    assert_eq!(keys(b"\x01\x05\x15\x0b\x17\t\x04\x7f"), vec![
        Key::Home, Key::End, Key::KillLine, Key::KillToEnd, Key::DeleteWord, Key::Tab, Key::EndOfInput, Key::Backspace
    ]);
    assert_eq!(keys(b"\x1bx\x1b[3x\x1b[Z"), Vec::<Key>::new());
    assert_eq!(keys(b"\x02"), vec![Key::Other]);
}

#[test]
fn editing_in_the_middle() {
    let mut e = editor_with(b"helo");
    assert!(e.move_left());
    e.insert(b'l');
    assert_eq!(e.buf, b"hello".to_vec());
    assert_eq!(e.cursor, 4);
    e.home();
    assert!(!e.move_left());
    assert!(e.delete_char());
    assert_eq!(e.buf, b"ello".to_vec());
    e.end();
    assert!(!e.move_right());
    assert!(!e.delete_char());
    assert!(e.backspace());
    assert_eq!(e.buf, b"ell".to_vec());
}

#[test]
fn killing_text() {
    let mut e = editor_with(b"echo one two  ");
    e.delete_word();
    assert_eq!(e.buf, b"echo one ".to_vec());
    e.move_left();
    e.move_left();
    e.kill_to_end();
    assert_eq!(e.buf, b"echo on".to_vec());
    e.kill_line();
    assert!(e.buf.is_empty());
    assert_eq!(e.cursor, 0);
}

#[test]
fn enter_submits_and_clears() {
    let mut e = editor_with(b"ls");
    match e.handle_key(Key::Enter) {
        EditAction::Submit(l) => assert_eq!(l, b"ls".to_vec()),
        other => panic!("unexpected {:?}", other),
    }
    assert!(e.buf.is_empty());
    assert!(matches!(e.handle_key(Key::EndOfInput), EditAction::EndOfInput));
    e.insert(b'x');
    assert!(matches!(e.handle_key(Key::EndOfInput), EditAction::Nothing));
    assert!(matches!(e.handle_key(Key::Tab), EditAction::Complete));
    assert!(matches!(e.handle_key(Key::Other), EditAction::Nothing));
    assert!(matches!(e.handle_key(Key::Char(b'y')), EditAction::Redraw));
    assert_eq!(e.buf, b"xy".to_vec());
}

#[test]
fn history_recall() {
    let mut e = LineEditor::new();
    e.add_history(b"first");
    e.add_history(b"second");
    assert!(e.history_prev());
    assert_eq!(e.buf, b"second".to_vec());
    assert!(e.history_prev());
    assert_eq!(e.buf, b"first".to_vec());
    assert!(e.history_prev());
    assert_eq!(e.buf, b"first".to_vec());
    assert!(e.history_next());
    assert_eq!(e.buf, b"second".to_vec());
    assert!(e.history_next());
    assert!(e.buf.is_empty());
    assert!(!e.history_next());
}

#[test]
fn history_is_bounded() {
    let mut h: VecDeque<Vec<u8>> = VecDeque::new();
    for i in 0..(MAX_HISTORY + 5) {
        assert!(history_add(&mut h, format!("cmd{}", i).as_bytes()));
    }
    assert_eq!(h.len(), MAX_HISTORY);
    assert_eq!(h[0], b"cmd5".to_vec());
    assert!(!history_add(&mut h, b"cmd104"));
    assert!(!history_add(&mut h, b""));
}

#[test]
fn completion() {
    let names = vec![b"cat".to_vec(), b"cow".to_vec(), b"echo_test".to_vec()];
    assert_eq!(completion_candidates(&names, b"c"), vec![
        b"cat".to_vec(), b"cow".to_vec(), b"cd".to_vec(), b"clear".to_vec()
    ]);
    assert_eq!(completion_candidates(&names, b"ech"), vec![b"echo_test".to_vec(), b"echo".to_vec()]);
    let mut e = editor_with(b"ls | ca");
    let found = e.complete(&names);
    assert_eq!(found, vec![b"cat".to_vec()]);
    assert_eq!(e.buf, b"ls | cat ".to_vec());
    assert_eq!(e.cursor, 9);
    let mut e = editor_with(b"zz");
    assert!(e.complete(&names).is_empty());
    assert_eq!(e.buf, b"zz".to_vec());
}

#[test]
fn redraw_bytes() {
    let mut e = editor_with(b"abc");
    assert_eq!(e.refresh_bytes(b"/>> "), b"\r\x1b[K/>> abc".to_vec());
    e.move_left();
    e.move_left();
    assert_eq!(e.refresh_bytes(b"$ "), b"\r\x1b[K$ abc\x1b[2D".to_vec());
}

#[test]
fn history_listing_lines() {
    assert_eq!(history_line(1, b"ls"), b"   1  ls".to_vec());
    assert_eq!(history_line(12345, b"x"), b"12345  x".to_vec());
}

#[test]
fn typed_characters_go_to_the_end_of_the_line() {
    let mut e = LineEditor::new();
    let mut submitted = None;
    for k in keys(b"hello_world\x1b[D\x1b[Dx\r") {
        if let EditAction::Submit(line) = e.handle_key(k) {
            submitted = Some(line);
        }
    }
    assert_eq!(submitted, Some(b"hello_worldx".to_vec()));
    assert!(e.buf.is_empty());
    assert_eq!(e.cursor, 0);
}

#[test]
fn cursor_keys_move_the_editing_point() {
    let mut e = LineEditor::new();
    let mut submitted = None;
    for k in keys(b"abcd\x1b[D\x1b[D\x7f\x1b[3~\r") {
        if let EditAction::Submit(line) = e.handle_key(k) {
            submitted = Some(line);
        }
    }
    assert_eq!(submitted, Some(b"ad".to_vec()));
}
