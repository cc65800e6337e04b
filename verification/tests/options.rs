use uu_grep::color::ColorConfig;
use uu_grep::config::{
    binary_mode, build_config, color_mode, context_lines, device_mode, directory_mode,
    exits_without_search, first_file_operand, has_explicit_patterns, pattern_operand, show_filename, use_color,
    warn_deprecated_grep_color, Options,
};
use uu_grep::globset::GlobSet;
use uu_grep::modes::{regex_mode, BinaryMode, ColorMode, DeviceMode, DirectoryMode, RegexMode};
use uu_grep::patterns::{check_matchers, check_patterns, collect_patterns, has_empty_pattern, UsageError};

#[test]
fn patterns_from_all_sources_in_order() {
    let p = collect_patterns(&["a\nb", "c"], &["d\ne\n", "", "f"], Some("g\nh"));
    assert_eq!(p, vec!["a", "b", "c", "d", "e", "f", "g", "h"]);
}

#[test]
fn pattern_file_newline_handling() {
    assert_eq!(collect_patterns(&[], &["\n"], None), vec![""]);
    assert_eq!(collect_patterns(&[], &["x\n\n"], None), vec!["x", ""]);
    assert_eq!(collect_patterns(&[], &[""], None), Vec::<&str>::new());
    assert_eq!(collect_patterns(&["x\n"], &[], None), vec!["x", ""]);
    assert_eq!(collect_patterns(&[""], &[], None), vec![""]);
    assert_eq!(collect_patterns(&[], &[], None), Vec::<&str>::new());
}

#[test]
fn conflicting_matchers() {
    assert!(check_matchers(true, false, false, false).is_ok());
    assert!(check_matchers(false, false, false, false).is_ok());
    assert!(matches!(check_matchers(true, true, false, false), Err(UsageError::ConflictingMatchers)));
    assert!(matches!(check_matchers(false, false, true, true), Err(UsageError::ConflictingMatchers)));
}

#[test]
fn pattern_count_checks() {
    assert!(matches!(check_patterns(0, false, false), Err(UsageError::NoPattern)));
    assert!(matches!(check_patterns(0, false, true), Err(UsageError::NoPattern)));
    assert!(check_patterns(0, true, false).is_ok());
    assert!(matches!(check_patterns(2, false, true), Err(UsageError::PerlSinglePattern)));
    assert!(check_patterns(1, false, true).is_ok());
    assert!(check_patterns(2, true, false).is_ok());
}

#[test]
fn regex_mode_precedence() {
    assert_eq!(regex_mode(true, true, true), RegexMode::Fixed);
    assert_eq!(regex_mode(false, true, true), RegexMode::Extended);
    assert_eq!(regex_mode(false, false, true), RegexMode::Perl);
    assert_eq!(regex_mode(false, false, false), RegexMode::Basic);
}

#[test]
fn directory_binary_device_and_color_modes() {
    assert_eq!(directory_mode(true, false, Some("skip")), DirectoryMode::Recurse);
    assert_eq!(directory_mode(false, true, None), DirectoryMode::Recurse);
    assert_eq!(directory_mode(false, false, Some("skip")), DirectoryMode::Skip);
    assert_eq!(directory_mode(false, false, Some("recurse")), DirectoryMode::Recurse);
    assert_eq!(directory_mode(false, false, Some("read")), DirectoryMode::Read);
    assert_eq!(directory_mode(false, false, None), DirectoryMode::Read);

    assert_eq!(binary_mode(true, true, Some("binary")), BinaryMode::Text);
    assert_eq!(binary_mode(false, true, Some("text")), BinaryMode::WithoutMatch);
    assert_eq!(binary_mode(false, false, Some("text")), BinaryMode::Text);
    assert_eq!(binary_mode(false, false, Some("without-match")), BinaryMode::WithoutMatch);
    assert_eq!(binary_mode(false, false, Some("binary")), BinaryMode::Binary);
    assert_eq!(binary_mode(false, false, None), BinaryMode::Binary);

    assert_eq!(device_mode(Some("read")), DeviceMode::Read);
    assert_eq!(device_mode(Some("skip")), DeviceMode::Skip);
    assert_eq!(device_mode(None), DeviceMode::Default);

    assert_eq!(color_mode(Some("always")), ColorMode::Always);
    assert_eq!(color_mode(Some("never")), ColorMode::Never);
    assert_eq!(color_mode(Some("auto")), ColorMode::Auto);
    assert_eq!(color_mode(None), ColorMode::Auto);
    assert!(use_color(ColorMode::Always, false));
    assert!(!use_color(ColorMode::Never, true));
    assert!(use_color(ColorMode::Auto, true));
    assert!(!use_color(ColorMode::Auto, false));
}

#[test]
fn deprecated_grep_color_warning() {
    assert!(warn_deprecated_grep_color(true, "36"));
    assert!(!warn_deprecated_grep_color(false, "36"));
    assert!(!warn_deprecated_grep_color(true, ""));
}

#[test]
fn context_options() {
    assert_eq!(context_lines(false, None, None, None), (0, 0, false));
    assert_eq!(context_lines(false, None, None, Some(2)), (2, 2, true));
    assert_eq!(context_lines(false, Some(1), None, Some(2)), (1, 2, true));
    assert_eq!(context_lines(false, None, Some(3), None), (0, 3, true));
    assert_eq!(context_lines(true, Some(1), Some(3), Some(5)), (0, 0, false));
}

#[test]
fn file_name_prefix_rules() {
    let none: Vec<Vec<u8>> = vec![];
    let one = vec![b"a".to_vec()];
    let dash = vec![b"-".to_vec()];
    let two = vec![b"a".to_vec(), b"b".to_vec()];
    assert!(show_filename(true, true, &one, false, DirectoryMode::Read));
    assert!(!show_filename(false, true, &two, false, DirectoryMode::Read));
    assert!(!show_filename(false, false, &none, false, DirectoryMode::Read));
    assert!(show_filename(false, false, &none, false, DirectoryMode::Recurse));
    assert!(!show_filename(false, false, &one, false, DirectoryMode::Read));
    assert!(show_filename(false, false, &one, true, DirectoryMode::Recurse));
    assert!(!show_filename(false, false, &one, false, DirectoryMode::Recurse));
    assert!(!show_filename(false, false, &dash, true, DirectoryMode::Recurse));
    assert!(show_filename(false, false, &two, false, DirectoryMode::Read));
}

#[test]
fn explicit_patterns_and_pattern_operand() {
    assert!(has_explicit_patterns(1, 0));
    assert!(has_explicit_patterns(0, 2));
    assert!(!has_explicit_patterns(0, 0));
    assert_eq!(pattern_operand(false, 2), Some(0));
    assert_eq!(pattern_operand(true, 2), None);
    assert_eq!(pattern_operand(false, 0), None);
}

#[test]
fn operands_and_early_exit() {
    assert_eq!(first_file_operand(true, 3), 0);
    assert_eq!(first_file_operand(false, 3), 1);
    assert_eq!(first_file_operand(false, 0), 0);
    assert!(exits_without_search(Some(0), false, &["a"]));
    assert!(!exits_without_search(Some(1), false, &["a"]));
    assert!(exits_without_search(None, true, &["a", ""]));
    assert!(!exits_without_search(None, false, &["a", ""]));
    assert!(!exits_without_search(None, true, &["a"]));
    assert!(has_empty_pattern(&["", "x"]));
    assert!(!has_empty_pattern(&["x"]));
}

fn options<'a>() -> Options<'a> {
    Options {
        extended_regexp: false,
        fixed_strings: true,
        basic_regexp: false,
        perl_regexp: false,
        ignore_case: true,
        word_regexp: false,
        line_regexp: true,
        null_data: false,
        no_messages: true,
        invert_match: false,
        max_count: Some(3),
        byte_offset: false,
        line_number: true,
        line_buffered: false,
        with_filename: false,
        no_filename: false,
        label: None,
        only_matching: false,
        quiet: false,
        binary_files: Some("text"),
        text: false,
        skip_binary: false,
        directories: None,
        devices: Some("skip"),
        recursive: true,
        dereference_recursive: false,
        files_without_match: false,
        files_with_matches: true,
        count: false,
        initial_tab: false,
        null: true,
        before_context: Some(1),
        after_context: None,
        context: Some(4),
        group_separator: None,
        no_group_separator: false,
        color: Some("never"),
        binary: false,
    }
}

#[test]
fn configuration_from_options() {
    let opts = options();
    let patterns = vec!["x"];
    let files = vec![b"dir".to_vec()];
    let c = build_config(
        &opts,
        &patterns,
        GlobSet::new(),
        GlobSet::new(),
        GlobSet::new(),
        ColorConfig::from_env("", ""),
        &files,
        true,
        true,
        true,
    );
    assert_eq!(c.directory_mode, DirectoryMode::Recurse);
    assert_eq!(c.device_mode, DeviceMode::Skip);
    assert!(!c.follow_symlinks);
    assert_eq!(c.label, "(standard input)");
    assert!(c.strip_cr);
    assert_eq!(c.binary_mode, BinaryMode::Text);
    assert_eq!(c.max_count, Some(3));
    assert_eq!((c.before_context, c.after_context, c.has_context), (1, 4, true));
    assert_eq!(c.patterns, &["x"][..]);
    assert_eq!(c.regex_mode, RegexMode::Fixed);
    assert!(c.ignore_case && c.line_regexp && !c.word_regexp && !c.invert_match);
    assert!(c.show_filename);
    assert!(c.files_with_matches && !c.files_without_match && !c.count);
    assert!(c.null_separator && !c.null_data && c.no_messages && c.line_number);
    assert_eq!(c.group_separator, Some("--"));
    assert!(!c.use_color);
    assert_eq!(c.color_config.filename, "35");
}

#[test]
fn configuration_label_separator_and_color() {
    let mut opts = options();
    opts.label = Some("in");
    opts.no_group_separator = true;
    opts.color = Some("always");
    opts.only_matching = true;
    opts.recursive = false;
    let patterns = vec!["x"];
    let files: Vec<Vec<u8>> = vec![];
    let c = build_config(
        &opts,
        &patterns,
        GlobSet::new(),
        GlobSet::new(),
        GlobSet::new(),
        ColorConfig::from_env("", ""),
        &files,
        false,
        false,
        false,
    );
    assert_eq!(c.label, "in");
    assert!(!c.strip_cr);
    assert_eq!(c.group_separator, None);
    assert!(c.use_color);
    assert_eq!((c.before_context, c.after_context, c.has_context), (0, 0, false));
    assert!(!c.show_filename);
    assert_eq!(c.directory_mode, DirectoryMode::Read);

    opts.no_group_separator = false;
    opts.group_separator = Some("##");
    let c = build_config(
        &opts,
        &patterns,
        GlobSet::new(),
        GlobSet::new(),
        GlobSet::new(),
        ColorConfig::from_env("", ""),
        &files,
        false,
        false,
        true,
    );
    assert_eq!(c.group_separator, Some("##"));
    assert!(c.strip_cr);
    opts.binary = true;
    let c = build_config(
        &opts,
        &patterns,
        GlobSet::new(),
        GlobSet::new(),
        GlobSet::new(),
        ColorConfig::from_env("", ""),
        &files,
        false,
        false,
        true,
    );
    assert!(!c.strip_cr);
}

#[test]
fn cut_patterns_join_back_to_the_text() {
    let text = "x\n\ny z\n";
    let p = collect_patterns(&[text], &[], None);
    assert_eq!(p.join("\n"), text);
    assert!(p.iter().all(|s| !s.contains('\n')));
}

#[test]
fn pattern_file_with_final_newline_is_like_expression() {
    assert_eq!(
        collect_patterns(&[], &["a\nb\n"], None),
        collect_patterns(&["a\nb"], &[], None)
    );
}
