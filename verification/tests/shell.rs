use gamemaster::shell::Shell;

fn typed(text: &str) -> Shell {
    let mut s = Shell::new();
    for c in text.chars() {
        s.insert(c);
    }
    s
}

#[test]
fn new_shell_is_empty() {
    let s = Shell::new();
    assert_eq!(s.command(), "");
    assert_eq!(s.xpos(), 0);
    assert_eq!(s.len(), 0);
    assert_eq!(s.command_line(), (String::new(), ' ', String::new()));
}

#[test]
fn typing_appends_at_cursor() {
    let mut s = typed("look");
    assert_eq!(s.command(), "look");
    assert_eq!(s.xpos(), 4);
    s.go(-2);
    s.insert('X');
    assert_eq!(s.command(), "loXok");
    assert_eq!(s.xpos(), 3);
}

#[test]
fn backspace_removes_before_cursor() {
    let mut s = typed("abc");
    s.del();
    assert_eq!(s.command(), "ab");
    assert_eq!(s.xpos(), 2);
    s.go(-2);
    s.del();
    assert_eq!(s.command(), "ab");
    assert_eq!(s.xpos(), 0);
}

#[test]
fn insert_then_backspace_restores() {
    let mut s = typed("north");
    s.go(-3);
    s.insert('Z');
    s.del();
    assert_eq!(s.command(), "north");
    assert_eq!(s.xpos(), 2);
}

#[test]
fn cursor_stays_inside_text() {
    let mut s = typed("ab");
    s.go(1);
    assert_eq!(s.xpos(), 2);
    s.go(-3);
    assert_eq!(s.xpos(), 2);
    s.go(-2);
    assert_eq!(s.xpos(), 0);
    s.go(-1);
    assert_eq!(s.xpos(), 0);
    s.go(1);
    s.go(-1);
    assert_eq!(s.xpos(), 0);
}

#[test]
fn command_line_parts() {
    let mut s = typed("take lamp");
    assert_eq!(s.command_line(), ("take lamp".to_string(), ' ', String::new()));
    s.go(-4);
    assert_eq!(s.command_line(), ("take ".to_string(), 'l', "amp".to_string()));
    s.go(-5);
    assert_eq!(s.command_line(), (String::new(), 't', "ake lamp".to_string()));
}

#[test]
fn clear_empties() {
    let mut s = typed("xyzzy");
    s.go(-1);
    s.clear();
    assert_eq!(s.command(), "");
    assert_eq!(s.xpos(), 0);
}

#[test]
fn unicode_characters() {
    let mut s = typed("héllo");
    assert_eq!(s.len(), 5);
    s.go(-4);
    assert_eq!(s.command_line(), ("h".to_string(), 'é', "llo".to_string()));
}

#[test]
fn go_and_back_restores_cursor() {
    let mut s = typed("abcdef");
    s.go(-4);
    assert_eq!(s.xpos(), 2);
    s.go(3);
    s.go(-3);
    assert_eq!(s.xpos(), 2);
    assert_eq!(s.command(), "abcdef");
}
