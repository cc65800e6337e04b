use uu_grep::color::ColorConfig;

#[test]
fn defaults_without_environment() {
    let c = ColorConfig::from_env("", "");
    assert_eq!(c.matched_selected, "01;31");
    assert_eq!(c.matched_context, "01;31");
    assert_eq!(c.filename, "35");
    assert_eq!(c.line_number, "32");
    assert_eq!(c.byte_offset, "32");
    assert_eq!(c.separator, "36");
    assert_eq!(c.selected_line, "");
    assert_eq!(c.context_line, "");
    assert!(!c.reverse_video);
    assert!(!c.no_erase);
}

#[test]
fn mt_sets_both_match_colors() {
    let c = ColorConfig::from_env("", "mt=36");
    assert_eq!(c.matched_selected, "36");
    assert_eq!(c.matched_context, "36");
    assert_eq!(c.filename, "35");
}

#[test]
fn grep_colors_items_override() {
    let c = ColorConfig::from_env("", "ms=33:ln=34");
    assert_eq!(c.matched_selected, "33");
    assert_eq!(c.matched_context, "01;31");
    assert_eq!(c.line_number, "34");
}

#[test]
fn legacy_grep_color_sets_match_color() {
    let c = ColorConfig::from_env("44", "");
    assert_eq!(c.matched_selected, "44");
    assert_eq!(c.matched_context, "44");
}

#[test]
fn grep_colors_wins_over_grep_color() {
    let c = ColorConfig::from_env("44", "mc=35");
    assert_eq!(c.matched_selected, "44");
    assert_eq!(c.matched_context, "35");
}

#[test]
fn every_key_and_flag() {
    let c = ColorConfig::from_env(
        "",
        "ms=1:mc=2:fn=3:ln=4:bn=5:se=6:sl=7:cx=8:rv:ne",
    );
    assert_eq!(c.matched_selected, "1");
    assert_eq!(c.matched_context, "2");
    assert_eq!(c.filename, "3");
    assert_eq!(c.line_number, "4");
    assert_eq!(c.byte_offset, "5");
    assert_eq!(c.separator, "6");
    assert_eq!(c.selected_line, "7");
    assert_eq!(c.context_line, "8");
    assert!(c.reverse_video);
    assert!(c.no_erase);
}

#[test]
fn flags_with_values_and_unknown_items() {
    let c = ColorConfig::from_env("", "rv=x:zz=1:ne=:bogus::fn");
    assert!(c.reverse_video);
    assert!(c.no_erase);
    assert_eq!(c.filename, "35");
}

#[test]
fn later_items_win_and_values_keep_equals() {
    let c = ColorConfig::from_env("", "ms=1:ms=2;3=4");
    assert_eq!(c.matched_selected, "2;3=4");
    let c = ColorConfig::from_env("", "fn=");
    assert_eq!(c.filename, "");
}

#[test]
fn non_ascii_values_are_kept() {
    let c = ColorConfig::from_env("", "sl=é:cx=日本");
    assert_eq!(c.selected_line, "é");
    assert_eq!(c.context_line, "日本");
}

#[test]
fn last_item_naming_a_capability_wins() {
    let c = ColorConfig::from_env("44", "mt=36:ms=33");
    assert_eq!(c.matched_selected, "33");
    assert_eq!(c.matched_context, "36");
    let c = ColorConfig::from_env("44", "ms=33:mt=36");
    assert_eq!(c.matched_selected, "36");
    assert_eq!(c.matched_context, "36");
}

#[test]
fn flags_stay_on_once_named() {
    let c = ColorConfig::from_env("", "rv:ne=1:ms=2");
    assert!(c.reverse_video);
    assert!(c.no_erase);
    let c = ColorConfig::from_env("", "rvx:nee=1");
    assert!(!c.reverse_video);
    assert!(!c.no_erase);
}
