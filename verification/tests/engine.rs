use rust_web::{convert_str, load_arc_dictionary, load_dictionary};

#[test]
fn scenario_word_level_exact_match() {
    let d = load_dictionary("", "", "\u{5973}\u{5B50},\u{C5EC}\u{C790}");
    let r = convert_str("\u{5973}\u{5B50}", &d.char_dic, &d.dueum_dic, &d.word_dic);
    assert_eq!(r, Some("\u{C5EC}\u{C790}".to_string()));
}

#[test]
fn scenario_single_char_no_adjustment() {
    // '李' -> '리' in the character table, '리' -> '이' in the
    // initial-sound table; nothing follows '李', so the adjustment is
    // skipped.
    let d = load_dictionary("\u{674E},\u{B9AC}", "\u{B9AC},\u{C774}", "");
    let r = convert_str("\u{674E}", &d.char_dic, &d.dueum_dic, &d.word_dic);
    assert_eq!(r, Some("\u{B9AC}".to_string()));
}

#[test]
fn scenario_single_char_with_adjustment() {
    // Input "李씨": the Hangul '씨' follows, so '리' is adjusted to '이'
    // and '씨' passes through unchanged.
    let d = load_dictionary("\u{674E},\u{B9AC}", "\u{B9AC},\u{C774}", "");
    let r = convert_str("\u{674E}\u{C528}", &d.char_dic, &d.dueum_dic, &d.word_dic);
    assert_eq!(r, Some("\u{C774}\u{C528}".to_string()));
}

#[test]
fn scenario_maximal_run_miss_single_char_retry() {
    // The word table has no entry for the full run "女子李"; the engine
    // consumes '女' alone through the character table and re-scans the
    // remaining "子李" as a fresh run.
    let d = load_dictionary("\u{5973},\u{C5EC}", "", "");
    let r = convert_str("\u{5973}\u{5B50}\u{674E}", &d.char_dic, &d.dueum_dic, &d.word_dic);
    assert_eq!(r, Some("\u{C5EC}\u{5B50}\u{674E}".to_string()));
}

#[test]
fn scenario_no_dictionary_data() {
    let d = load_dictionary("", "", "");
    assert_eq!(
        convert_str("\u{5973}\u{5B50}\u{674E}", &d.char_dic, &d.dueum_dic, &d.word_dic),
        None
    );
    assert_eq!(convert_str("hello", &d.char_dic, &d.dueum_dic, &d.word_dic), None);
    assert_eq!(convert_str("", &d.char_dic, &d.dueum_dic, &d.word_dic), None);
}

#[test]
fn no_logographic_input_is_unchanged() {
    let d = load_dictionary("\u{674E},\u{B9AC}", "\u{B9AC},\u{C774}", "\u{5973}\u{5B50},\u{C5EC}\u{C790}");
    assert_eq!(convert_str("hello, world! 123", &d.char_dic, &d.dueum_dic, &d.word_dic), None);
    assert_eq!(convert_str("", &d.char_dic, &d.dueum_dic, &d.word_dic), None);
}

#[test]
fn hangul_only_input_is_unchanged() {
    let d = load_dictionary("\u{674E},\u{B9AC}", "\u{B9AC},\u{C774}", "\u{5973}\u{5B50},\u{C5EC}\u{C790}");
    // "안녕하세요" lies entirely in the Hangul syllable block.
    let r = convert_str(
        "\u{C548}\u{B155}\u{D558}\u{C138}\u{C694}",
        &d.char_dic,
        &d.dueum_dic,
        &d.word_dic,
    );
    assert_eq!(r, None);
}

#[test]
fn reconverting_own_output_is_unchanged() {
    // "李氏" converts to "이씨"; running the engine again on that output
    // reports "unchanged".
    let d = load_dictionary("\u{674E},\u{B9AC}\n\u{6C0F},\u{C528}", "\u{B9AC},\u{C774}", "");
    let first = convert_str("\u{674E}\u{6C0F}", &d.char_dic, &d.dueum_dic, &d.word_dic);
    assert_eq!(first, Some("\u{C774}\u{C528}".to_string()));
    let out = first.unwrap();
    assert_eq!(convert_str(&out, &d.char_dic, &d.dueum_dic, &d.word_dic), None);
}

#[test]
fn word_prefix_of_longer_run_is_not_retried() {
    // "女子" is in the word table, but the maximal run is "女子李", which
    // misses; the engine never retries the shorter prefix at the same
    // offset, so with no character entries nothing is substituted.
    let d = load_dictionary("", "", "\u{5973}\u{5B50},\u{C5EC}\u{C790}");
    let r = convert_str("\u{5973}\u{5B50}\u{674E}", &d.char_dic, &d.dueum_dic, &d.word_dic);
    assert_eq!(r, None);
}

#[test]
fn word_suffix_of_run_is_reached_after_trimming() {
    // "子李" is a suffix of the maximal run "女子李": after '女' is
    // consumed alone, the next iteration's run "子李" hits the word
    // table.
    let d = load_dictionary("", "", "\u{5B50}\u{674E},\u{C790}\u{B9AC}");
    let r = convert_str("\u{5973}\u{5B50}\u{674E}", &d.char_dic, &d.dueum_dic, &d.word_dic);
    assert_eq!(r, Some("\u{5973}\u{C790}\u{B9AC}".to_string()));
}

#[test]
fn adjustment_skipped_before_non_korean_character() {
    // 'a' after '李' is neither Hangul nor logographic, so the
    // initial-sound adjustment does not fire.
    let d = load_dictionary("\u{674E},\u{B9AC}", "\u{B9AC},\u{C774}", "");
    let r = convert_str("\u{674E}a", &d.char_dic, &d.dueum_dic, &d.word_dic);
    assert_eq!(r, Some("\u{B9AC}a".to_string()));
}

#[test]
fn adjustment_fires_before_logographic_character() {
    // A logographic character after '李' also triggers the adjustment.
    let d = load_dictionary("\u{674E},\u{B9AC}", "\u{B9AC},\u{C774}", "");
    let r = convert_str("\u{674E}\u{5B50}", &d.char_dic, &d.dueum_dic, &d.word_dic);
    assert_eq!(r, Some("\u{C774}\u{5B50}".to_string()));
}

#[test]
fn word_match_skips_single_character_path() {
    // On a word-table hit the single-character tables are not consulted
    // for any character of the run.
    let d = load_dictionary(
        "\u{5973},\u{D558}\n\u{5B50},\u{D558}",
        "\u{C5EC},\u{D558}",
        "\u{5973}\u{5B50},\u{C5EC}\u{C790}",
    );
    let r = convert_str("\u{5973}\u{5B50}", &d.char_dic, &d.dueum_dic, &d.word_dic);
    assert_eq!(r, Some("\u{C5EC}\u{C790}".to_string()));
}

#[test]
fn mixed_text_converts_only_logographic_parts() {
    let d = load_dictionary("\u{674E},\u{B9AC}", "\u{B9AC},\u{C774}", "");
    let r = convert_str("ab \u{674E}\u{C528} cd", &d.char_dic, &d.dueum_dic, &d.word_dic);
    assert_eq!(r, Some("ab \u{C774}\u{C528} cd".to_string()));
}

#[test]
fn arc_dictionary_serves_conversion() {
    let d = load_arc_dictionary("\u{674E},\u{B9AC}", "\u{B9AC},\u{C774}", "\u{5973}\u{5B50},\u{C5EC}\u{C790}");
    let r = convert_str("\u{5973}\u{5B50}", &d.char_dic, &d.dueum_dic, &d.word_dic);
    assert_eq!(r, Some("\u{C5EC}\u{C790}".to_string()));
}

#[test]
fn classifier_ranges() {
    assert!(rust_web::is_chi(&'\u{674E}'));
    assert!(rust_web::is_chi(&'\u{3400}'));
    assert!(rust_web::is_chi(&'\u{F900}'));
    assert!(!rust_web::is_chi(&'a'));
    assert!(!rust_web::is_chi(&'\u{C528}'));
    assert!(rust_web::is_kor_or_chi(&'\u{C528}'));
    assert!(rust_web::is_kor_or_chi(&'\u{674E}'));
    assert!(!rust_web::is_kor_or_chi(&'z'));
}
