use quake_log_parser::event_type::EventType;
use quake_log_parser::tokens::{
    is_white, read_kill_fields, read_name, read_player_name, split_on_spaces, trim_str, Tokens,
};
use quake_log_parser::error::ParseError;

#[test]
fn should_read_name_until_stopword() {
    let name = "Player name stopword";
    let parsed_name = read_name(&mut Tokens::split(name), "stopword");

    assert!(parsed_name.is_ok());
    assert_eq!(parsed_name.unwrap(), "Player name");
}

#[test]
fn read_name_keeps_the_first_token_even_if_it_is_the_stopword() {
    let mut tokens = Tokens::split("killed killed rest");
    assert_eq!(read_name(&mut tokens, "killed").unwrap(), "killed");
    assert_eq!(tokens.next(), Some("rest".to_string()));
}

#[test]
fn read_name_without_stopword_is_malformed() {
    let mut tokens = Tokens::split("Player name");
    assert_eq!(read_name(&mut tokens, "stopword"), Err(ParseError::MalformedEvent));
    assert_eq!(read_name(&mut Tokens::split(""), "x"), Err(ParseError::MalformedEvent));
}

#[test]
fn split_keeps_empty_pieces() {
    assert_eq!(split_on_spaces("a  b"), vec!["a".to_string(), "".to_string(), "b".to_string()]);
    assert_eq!(split_on_spaces(""), vec!["".to_string()]);
    assert_eq!(split_on_spaces("x "), vec!["x".to_string(), "".to_string()]);
}

#[test]
fn trim_removes_white_space_at_both_ends() {
    assert_eq!(trim_str(" \t 20:54 Kill: x \r\n"), "20:54 Kill: x");
    assert_eq!(trim_str("   "), "");
    assert_eq!(trim_str("a b"), "a b");
}

#[test]
fn event_names_are_classified() {
    assert_eq!(EventType::parse_from_string("InitGame:"), EventType::InitGame);
    assert_eq!(EventType::parse_from_string("Kill:"), EventType::Kill);
    assert_eq!(
        EventType::parse_from_string("ClientUserinfoChanged:"),
        EventType::ClientUserinfoChanged
    );
    assert_eq!(EventType::parse_from_string("Kill"), EventType::Unknown);
    assert_eq!(EventType::parse_from_string("kill:"), EventType::Unknown);
    assert_eq!(EventType::parse_from_string(""), EventType::Unknown);
    assert_eq!(EventType::parse_from_string("ShutdownGame:"), EventType::Unknown);
}

#[test]
fn player_name_with_spaces_is_cut_at_marker() {
    let mut tokens = Tokens::split(r"3 n\Dono da Bola\t\0\model\sarge/krusade\hmodel\sarge");
    assert_eq!(read_player_name(&mut tokens).unwrap(), "Dono da Bola");
    let mut tokens = Tokens::split(r"3 n\Plain");
    assert_eq!(read_player_name(&mut tokens).unwrap(), "Plain");
}

#[test]
fn player_name_errors() {
    assert_eq!(read_player_name(&mut Tokens::split("")), Err(ParseError::MalformedEvent));
    assert_eq!(read_player_name(&mut Tokens::split("3")), Err(ParseError::MalformedEvent));
    assert_eq!(
        read_player_name(&mut Tokens::split(r"3 Name\t\0")),
        Err(ParseError::MalformedEvent)
    );
}

#[test]
fn kill_fields_are_read() {
    let mut tokens = Tokens::split("1022 2 22: <world> killed Dono da Bola by MOD_TRIGGER_HURT");
    let (a, v, c) = read_kill_fields(&mut tokens).unwrap();
    assert_eq!(a, "<world>");
    assert_eq!(v, "Dono da Bola");
    assert_eq!(c, "MOD_TRIGGER_HURT");
}

#[test]
fn kill_fields_errors() {
    let missing_cause = "2 3 7: Isgalamido killed Mocinha by";
    assert_eq!(read_kill_fields(&mut Tokens::split(missing_cause)), Err(ParseError::MalformedEvent));
    let missing_by = "2 3 7: Isgalamido killed Mocinha";
    assert_eq!(read_kill_fields(&mut Tokens::split(missing_by)), Err(ParseError::MalformedEvent));
    let missing_killed = "2 3 7: Isgalamido Mocinha by X";
    assert_eq!(read_kill_fields(&mut Tokens::split(missing_killed)), Err(ParseError::MalformedEvent));
}

#[test]
fn player_name_is_cut_at_backslash_t_backslash() {
    let mut tokens = Tokens::split(r"3 n\a\tb\t\0");
    assert_eq!(read_player_name(&mut tokens).unwrap(), r"a\tb");
    let mut tokens = Tokens::split(r"3 n\ends\t");
    assert_eq!(read_player_name(&mut tokens).unwrap(), r"ends\t");
    let mut tokens = Tokens::split(r"3 n\\t\x");
    assert_eq!(read_player_name(&mut tokens).unwrap(), "");
}

#[test]
fn white_space_is_the_unicode_set() {
    for c in ['\t', '\n', '\u{b}', '\u{c}', '\r', ' ', '\u{85}', '\u{a0}', '\u{1680}', '\u{2000}', '\u{200a}', '\u{2028}', '\u{2029}', '\u{202f}', '\u{205f}', '\u{3000}'] {
        assert!(is_white(c));
        assert_eq!(is_white(c), c.is_whitespace());
    }
    for c in ['0', 'a', '\\', '\u{200b}', '\u{feff}', '\u{8}', '\u{e}', '\u{180e}'] {
        assert!(!is_white(c));
        assert_eq!(is_white(c), c.is_whitespace());
    }
    assert_eq!(trim_str("\u{3000}\u{a0}x y\u{2029}"), "x y");
    assert_eq!(trim_str("\u{200b}x"), "\u{200b}x");
}
