use rust_web::{get_config, load_dictionary};

#[test]
fn malformed_lines_are_skipped_without_failing() {
    // Blank lines, lines without a comma, lines with more than one
    // comma, and lines whose trimmed field is empty are all dropped.
    let src = "\u{674E},\u{B9AC}\n\nno comma here\na,b,c\n , \n\u{6C0F},\u{C528}";
    let d = load_dictionary(src, "", "");
    assert_eq!(d.char_dic.get('\u{674E}'), Some('\u{B9AC}'));
    assert_eq!(d.char_dic.get('\u{6C0F}'), Some('\u{C528}'));
    assert_eq!(d.char_dic.get('a'), None);
    assert_eq!(d.char_dic.get(' '), None);
    assert_eq!(d.char_dic.get('n'), None);
}

#[test]
fn malformed_word_lines_are_skipped_without_failing() {
    let src = "\u{5973}\u{5B50},\u{C5EC}\u{C790}\n\nbad\nx,y,z";
    let d = load_dictionary("", "", src);
    let key: Vec<char> = vec!['\u{5973}', '\u{5B50}'];
    let hit = d.word_dic.get(&key);
    assert!(hit.is_some());
    let val: Vec<char> = vec!['\u{C5EC}', '\u{C790}'];
    assert_eq!(hit.unwrap(), &val);
    let bad: Vec<char> = vec!['x'];
    assert!(d.word_dic.get(&bad).is_none());
}

#[test]
fn fields_are_trimmed() {
    let d = load_dictionary("  \u{674E} , \u{B9AC}\t", "", " \u{5973}\u{5B50} , \u{C5EC}\u{C790} ");
    assert_eq!(d.char_dic.get('\u{674E}'), Some('\u{B9AC}'));
    let key: Vec<char> = vec!['\u{5973}', '\u{5B50}'];
    let val: Vec<char> = vec!['\u{C5EC}', '\u{C790}'];
    assert_eq!(d.word_dic.get(&key).unwrap(), &val);
}

#[test]
fn only_first_code_point_of_each_field_is_used() {
    // Multi-character fields of the character-keyed tables are truncated
    // to their first code point.
    let d = load_dictionary("\u{674E}\u{6C0F},\u{B9AC}\u{C0AC}", "", "");
    assert_eq!(d.char_dic.get('\u{674E}'), Some('\u{B9AC}'));
    assert_eq!(d.char_dic.get('\u{6C0F}'), None);
}

#[test]
fn last_write_wins_on_duplicate_keys() {
    let d = load_dictionary("\u{674E},\u{B9AC}\n\u{674E},\u{C774}", "", "");
    assert_eq!(d.char_dic.get('\u{674E}'), Some('\u{C774}'));
}

#[test]
fn crlf_line_endings_are_accepted() {
    let d = load_dictionary("\u{674E},\u{B9AC}\r\n\u{6C0F},\u{C528}\r\n", "", "");
    assert_eq!(d.char_dic.get('\u{674E}'), Some('\u{B9AC}'));
    assert_eq!(d.char_dic.get('\u{6C0F}'), Some('\u{C528}'));
}

#[test]
fn empty_sources_give_empty_tables() {
    let d = load_dictionary("", "", "");
    assert_eq!(d.char_dic.get('\u{674E}'), None);
    assert_eq!(d.dueum_dic.get('\u{B9AC}'), None);
    let key: Vec<char> = vec!['\u{5973}'];
    assert!(d.word_dic.get(&key).is_none());
}

#[test]
fn config_profiles() {
    let dev = get_config(true);
    assert_eq!(dev.mode, "dev");
    assert_eq!(dev.base_http_url, "127.0.0.1:8000");
    assert_eq!(dev.base_https_url, "127.0.0.1:443");
    assert_eq!(dev.https_redirect, "https://127.0.0.1:443");
    let prod = get_config(false);
    assert_eq!(prod.mode, "prod");
    assert_eq!(prod.base_http_url, "0.0.0.0:80");
    assert_eq!(prod.base_https_url, "0.0.0.0:443");
    assert_eq!(prod.https_redirect, "https://badang.xyz");
}
