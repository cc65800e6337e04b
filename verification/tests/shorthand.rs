use uu_grep::shorthand::expand_num_shorthand;

fn expand(args: &[&[u8]]) -> Vec<Vec<u8>> {
    let mut v: Vec<Vec<u8>> = vec![b"grep".to_vec()];
    for a in args {
        v.push(a.to_vec());
    }
    expand_num_shorthand(v)
}

fn line(args: &[&[u8]]) -> Vec<Vec<u8>> {
    let mut v: Vec<Vec<u8>> = vec![b"grep".to_vec()];
    for a in args {
        v.push(a.to_vec());
    }
    v
}

#[test]
fn plain_number_becomes_context() {
    assert_eq!(expand(&[b"-2", b"MATCH"]), line(&[b"-C2", b"MATCH"]));
}

#[test]
fn number_inside_cluster_is_split_out() {
    assert_eq!(expand(&[b"-a12b"]), line(&[b"-a", b"-C12", b"-b"]));
    assert_eq!(expand(&[b"-w2", b"MATCH"]), line(&[b"-w", b"-C2", b"MATCH"]));
    assert_eq!(expand(&[b"-i2", b"match"]), line(&[b"-i", b"-C2", b"match"]));
}

#[test]
fn a_run_of_digits_is_one_number() {
    assert_eq!(expand(&[b"-w44", b"MATCH"]), line(&[b"-w", b"-C44", b"MATCH"]));
}

#[test]
fn runs_split_by_letters_stay_separate() {
    assert_eq!(expand(&[b"-w1x2"]), line(&[b"-w", b"-C1", b"-x", b"-C2"]));
    assert_eq!(expand(&[b"-w2C1"]), line(&[b"-w", b"-C2", b"-C1"]));
    assert_eq!(expand(&[b"-2A1"]), line(&[b"-C2", b"-A1"]));
    assert_eq!(expand(&[b"-e", b"a", b"-w44ov"]), line(&[b"-e", b"a", b"-w", b"-C44", b"-ov"]));
}

#[test]
fn option_values_are_not_rewritten() {
    assert_eq!(expand(&[b"-e123"]), line(&[b"-e123"]));
    assert_eq!(expand(&[b"-m2", b"x"]), line(&[b"-m2", b"x"]));
    assert_eq!(expand(&[b"-wm2", b"x"]), line(&[b"-wm2", b"x"]));
    assert_eq!(expand(&[b"-ee", b"-2"]), line(&[b"-ee", b"-C2"]));
    assert_eq!(expand(&[b"-e", b"-2"]), line(&[b"-e", b"-2"]));
    assert_eq!(expand(&[b"--regexp", b"-2"]), line(&[b"--regexp", b"-2"]));
    assert_eq!(expand(&[b"-i2e", b"-3"]), line(&[b"-i", b"-C2", b"-e", b"-3"]));
}

#[test]
fn non_options_and_end_of_options_are_kept() {
    assert_eq!(expand(&[b"--regexp=-2"]), line(&[b"--regexp=-2"]));
    assert_eq!(expand(&[b"--", b"-2"]), line(&[b"--", b"-2"]));
    assert_eq!(expand(&[b"w2"]), line(&[b"w2"]));
    assert_eq!(expand(&[b"-"]), line(&[b"-"]));
    assert_eq!(expand(&[b"--max-count", b"-5", b"-5"]), line(&[b"--max-count", b"-5", b"-C5"]));
}

#[test]
fn non_ascii_bytes_claim_the_rest() {
    let smile = "🙂".as_bytes();
    let mut one_e = b"-1e".to_vec();
    one_e.extend_from_slice(smile);
    let mut e_smile = b"-e".to_vec();
    e_smile.extend_from_slice(smile);
    assert_eq!(expand(&[&one_e]), line(&[b"-C1", &e_smile]));

    let mut smile2 = b"-".to_vec();
    smile2.extend_from_slice(smile);
    smile2.push(b'2');
    assert_eq!(expand(&[&smile2, b"x"]), line(&[&smile2, b"x"]));

    let mut two_smile = b"-2".to_vec();
    two_smile.extend_from_slice(smile);
    two_smile.push(b'3');
    let mut rest = b"-".to_vec();
    rest.extend_from_slice(smile);
    rest.push(b'3');
    assert_eq!(expand(&[&two_smile, b"x"]), line(&[b"-C2", &rest, b"x"]));
}

#[test]
fn invalid_utf8_is_kept_whole() {
    assert_eq!(expand(&[&[b'-', b'w', b'2', 0xff], b"x"]), line(&[b"-w", b"-C2", &[b'-', 0xff], b"x"]));
}

#[test]
fn program_name_is_never_rewritten() {
    let out = expand_num_shorthand(vec![b"-5".to_vec(), b"-5".to_vec()]);
    assert_eq!(out, vec![b"-5".to_vec(), b"-C5".to_vec()]);
    assert_eq!(expand_num_shorthand(vec![]), Vec::<Vec<u8>>::new());
}

#[test]
fn digit_free_line_is_unchanged() {
    let args: &[&[u8]] = &[b"-ivx", b"--color=always", b"pattern", b"-e", b"file"];
    assert_eq!(expand(args), line(args));
}

#[test]
fn rewriting_twice_is_rewriting_once() {
    let cases: &[&[&[u8]]] = &[
        &[b"-a12b"],
        &[b"-5-", b"-3"],
        &[b"-5-x", b"-e", b"-7"],
        &[b"-i2e", b"-3", b"-4"],
        &[b"-2e", b"x", b"--", b"-9"],
        &[b"-w1x2", b"-ee", b"-2"],
    ];
    for args in cases {
        let once = expand(args);
        let twice = expand_num_shorthand(once.clone());
        assert_eq!(twice, once);
        assert!(once.len() >= args.len() + 1);
    }
}

#[test]
fn end_of_options_further_on_keeps_the_rest() {
    assert_eq!(
        expand(&[b"-3", b"-e", b"x", b"--", b"-4", b"-5"]),
        line(&[b"-C3", b"-e", b"x", b"--", b"-4", b"-5"])
    );
    // A `--` that is the value of `-e` is no end of options.
    assert_eq!(expand(&[b"-e", b"--", b"-4"]), line(&[b"-e", b"--", b"-C4"]));
}
