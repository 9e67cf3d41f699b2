use gamemaster::protocol::{
    contains_str, find_char, find_command, noise_line, starts_with_str, styled_text, Weight,
};
use gamemaster::text::{chars_equal, chars_of, find_pair, find_sep, split_command, split_status};

fn spans(s: &str) -> Vec<(String, Weight)> {
    let v = chars_of(s);
    styled_text(s, &v).into_iter().map(|sp| (sp.text, sp.weight)).collect()
}

#[test]
fn command_found_between_brackets() {
    let v = chars_of("xx#[line 1 2 3 4 5]yy");
    assert_eq!(find_command(&v), Some((4, 18)));
    let v = chars_of("#[clear]");
    assert_eq!(find_command(&v), Some((2, 7)));
}

#[test]
fn command_needs_hash_bracket_and_close() {
    assert_eq!(find_command(&chars_of("[clear]")), None);
    assert_eq!(find_command(&chars_of("#[clear")), None);
    assert_eq!(find_command(&chars_of("# [clear]")), None);
    assert_eq!(find_command(&chars_of("#[]")), Some((2, 2)));
    assert_eq!(find_command(&chars_of("a#[x]b#[y]")), Some((3, 4)));
}

#[test]
fn noise_lines() {
    assert!(noise_line(&chars_of("Loading story...")));
    assert!(noise_line(&chars_of("What now?")));
    assert!(noise_line(&chars_of(">")));
    assert!(noise_line(&chars_of(">   ")));
    assert!(noise_line(&chars_of("back to normal formatting.")));
    assert!(!noise_line(&chars_of("normal formatting")));
    assert!(!noise_line(&chars_of("> look")));
    assert!(!noise_line(&chars_of("  Loading ")));
    assert!(!noise_line(&chars_of("You are in a maze.")));
    assert!(!noise_line(&chars_of("")));
}

#[test]
fn substring_search() {
    let v = chars_of("draw a line here");
    assert!(contains_str(&v, "line"));
    assert!(contains_str(&v, ""));
    assert!(!contains_str(&v, "lines"));
    assert!(starts_with_str(&v, "draw"));
    assert!(!starts_with_str(&v, "line"));
}

#[test]
fn plain_text_is_one_span() {
    assert_eq!(spans("You see a lamp."), vec![("You see a lamp.".to_string(), Weight::Inherit)]);
    assert_eq!(spans(""), vec![]);
}

#[test]
fn bold_markers() {
    assert_eq!(
        spans("A [b]big[/b] room"),
        vec![
            ("A ".to_string(), Weight::Inherit),
            ("big".to_string(), Weight::Bold),
            (" room".to_string(), Weight::NotBold),
        ]
    );
}

#[test]
fn other_markers_are_dropped() {
    assert_eq!(
        spans("[i]x[b][b]y[u]"),
        vec![("x".to_string(), Weight::Inherit), ("y".to_string(), Weight::Bold)]
    );
    assert_eq!(spans("a [unclosed"), vec![("a [unclosed".to_string(), Weight::Inherit)]);
}

#[test]
fn split_command_words() {
    let v = chars_of("  line 1 x 0x10 -2 ");
    let (s, e, args) = split_command(&v).expect("a word");
    assert_eq!((s, e), (2, 6));
    assert_eq!(args, vec![1, 16, -2]);
    assert!(split_command(&chars_of("   ")).is_none());
    let (_, _, args) = split_command(&chars_of("fill --5 -9223372036854775808")).unwrap();
    assert_eq!(args, vec![i64::MIN]);
}

#[test]
fn text_scanners() {
    let v = chars_of("ab::cd::");
    assert_eq!(find_char(&v, ':', 0), Some(2));
    assert_eq!(find_char(&v, ':', 4), Some(6));
    assert_eq!(find_char(&v, 'z', 0), None);
    assert_eq!(find_pair(&v, 0, ':', ':'), Some(2));
    assert_eq!(find_pair(&v, 3, ':', ':'), Some(6));
    assert_eq!(find_sep(&v, 7), None);
    assert!(chars_equal(&v, 0, 2, "ab"));
    assert!(!chars_equal(&v, 0, 2, "abc"));
    let s = "x:::y::z::w";
    let (l, r) = split_status(s, &chars_of(s));
    assert_eq!((l.as_str(), r.as_str()), (":y", "z"));
}
