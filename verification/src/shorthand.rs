use vstd::prelude::*;

verus! {

// ---------------------------------------------------------------------------
// Byte classes
// ---------------------------------------------------------------------------

/// An ASCII decimal digit.
pub open spec fn is_digit(b: u8) -> bool {
    48 <= b <= 57
}

/// A short option letter that takes a value (`-e`, `-f`, `-m`, `-A`, `-B`,
/// `-C`, `-D`, `-d`): the value is the rest of the argument, or the next
/// argument when nothing follows the letter.
pub open spec fn short_takes_value(b: u8) -> bool {
    b == 101 || b == 102 || b == 109 || b == 65 || b == 66 || b == 67 || b == 68 || b == 100
}

/// A byte that ends a run of plain short option letters: a digit, a
/// non-ASCII byte, or a letter that takes a value.
pub open spec fn is_scan_stop(b: u8) -> bool {
    is_digit(b) || b >= 128 || short_takes_value(b)
}

/// A byte that claims the rest of the argument: a non-ASCII byte (no option
/// at all) or a letter that takes a value.
pub open spec fn claims_rest(b: u8) -> bool {
    b >= 128 || short_takes_value(b)
}

/// Long option names that take their value from the next argument.
pub open spec fn long_takes_value(name: Seq<u8>) -> bool {
    ||| name == seq![114u8, 101, 103, 101, 120, 112]  // regexp
    ||| name == seq![102u8, 105, 108, 101]  // file
    ||| name == seq![109u8, 97, 120, 45, 99, 111, 117, 110, 116]  // max-count
    ||| name == seq![108u8, 97, 98, 101, 108]  // label
    ||| name == seq![97u8, 102, 116, 101, 114, 45, 99, 111, 110, 116, 101, 120, 116]  // after-context
    ||| name == seq![98u8, 101, 102, 111, 114, 101, 45, 99, 111, 110, 116, 101, 120, 116]  // before-context
    ||| name == seq![99u8, 111, 110, 116, 101, 120, 116]  // context
    ||| name == seq![100u8, 101, 118, 105, 99, 101, 115]  // devices
    ||| name == seq![100u8, 105, 114, 101, 99, 116, 111, 114, 105, 101, 115]  // directories
    ||| name == seq![98u8, 105, 110, 97, 114, 121, 45, 102, 105, 108, 101, 115]  // binary-files
    ||| name == seq![105u8, 110, 99, 108, 117, 100, 101]  // include
    ||| name == seq![101u8, 120, 99, 108, 117, 100, 101]  // exclude
    ||| name == seq![101u8, 120, 99, 108, 117, 100, 101, 45, 102, 114, 111, 109]  // exclude-from
    ||| name == seq![101u8, 120, 99, 108, 117, 100, 101, 45, 100, 105, 114]  // exclude-dir
    ||| name == seq![103u8, 114, 111, 117, 112, 45, 115, 101, 112, 97, 114, 97, 116, 111, 114]  // group-separator
}

// ---------------------------------------------------------------------------
// The rewriting, argument by argument
// ---------------------------------------------------------------------------

/// The first index `k` with `from <= k < s.len()` and `p(s[k])`, or `s.len()`
/// when there is none.
pub open spec fn first_index(s: Seq<u8>, from: int, p: spec_fn(u8) -> bool) -> int
    decreases s.len() - from,
{
    if from >= s.len() {
        s.len() as int
    } else if p(s[from]) {
        from
    } else {
        first_index(s, from + 1, p)
    }
}

/// Length of the leading run of `s` whose bytes are all digits or all
/// non-digits.
pub open spec fn run_len(s: Seq<u8>) -> int {
    if s.len() == 0 {
        0
    } else {
        first_index(s, 1, |b: u8| is_digit(b) != is_digit(s[0]))
    }
}

/// `s` cut into maximal runs of digits and of non-digits.
pub open spec fn digit_runs(s: Seq<u8>) -> Seq<Seq<u8>>
    decreases s.len(),
{
    if s.len() == 0 {
        seq![]
    } else {
        let n = run_len(s);
        if 1 <= n <= s.len() {
            seq![s.subrange(0, n)] + digit_runs(s.subrange(n, s.len() as int))
        } else {
            seq![]
        }
    }
}

/// A run made into an argument of its own: a number becomes `-C NUM`
/// (written `-CNUM`), option letters get their dash back.
pub open spec fn run_to_arg(run: Seq<u8>) -> Seq<u8> {
    if run.len() > 0 && is_digit(run[0]) {
        seq![45u8, 67u8] + run
    } else {
        seq![45u8] + run
    }
}

/// The argument `--`, after which nothing is an option.
pub open spec fn is_end_of_options(a: Seq<u8>) -> bool {
    a == seq![45u8, 45u8]
}

/// A cluster of short options: one dash, then something that is not a dash.
pub open spec fn is_short_cluster(a: Seq<u8>) -> bool {
    a.len() >= 1 && a[0] == 45 && !(a.len() >= 2 && a[1] == 45)
}

/// Index of the first byte after the dash of a short cluster that stops the
/// scan over plain option letters.
pub open spec fn scan_stop(a: Seq<u8>) -> int {
    first_index(a, 1, |b: u8| is_scan_stop(b))
}

/// A short cluster that holds a number to translate: the first stop byte is
/// a digit.
pub open spec fn has_number(a: Seq<u8>) -> bool {
    is_short_cluster(a) && scan_stop(a) < a.len() && is_digit(a[scan_stop(a)])
}

/// Where the translated part of a cluster with a number ends: at the first
/// byte from the number on that claims the rest of the argument.
pub open spec fn translated_end(a: Seq<u8>) -> int {
    first_index(a, scan_stop(a), |b: u8| claims_rest(b))
}

/// What one argument becomes.
pub open spec fn rewrite_arg(a: Seq<u8>) -> Seq<Seq<u8>> {
    if has_number(a) {
        let end = translated_end(a);
        let rest = a.subrange(end, a.len() as int);
        digit_runs(a.subrange(1, end)).map_values(|r: Seq<u8>| run_to_arg(r)) + (if rest.len()
            > 0 {
            seq![seq![45u8] + rest]
        } else {
            seq![]
        })
    } else {
        seq![a]
    }
}

/// Whether the argument after `a` is the value of an option in `a`, and so
/// is passed on untouched.
pub open spec fn value_follows(a: Seq<u8>) -> bool {
    if a.len() >= 2 && a[0] == 45 && a[1] == 45 {
        long_takes_value(a.subrange(2, a.len() as int))
    } else if is_short_cluster(a) {
        let at = scan_stop(a);
        if at >= a.len() {
            false
        } else if !is_digit(a[at]) {
            at + 1 == a.len() && short_takes_value(a[at])
        } else {
            let end = translated_end(a);
            end + 1 == a.len() && short_takes_value(a[end])
        }
    } else {
        false
    }
}

/// The rewriting of the arguments that follow the program name.
pub open spec fn expand_rest(args: Seq<Seq<u8>>) -> Seq<Seq<u8>>
    decreases args.len(),
{
    if args.len() == 0 {
        seq![]
    } else if is_end_of_options(args[0]) {
        args
    } else if value_follows(args[0]) && args.len() >= 2 {
        rewrite_arg(args[0]) + seq![args[1]] + expand_rest(args.subrange(2, args.len() as int))
    } else {
        rewrite_arg(args[0]) + expand_rest(args.subrange(1, args.len() as int))
    }
}

/// The whole command line after rewriting: the program name is kept as it
/// is, and each `-NUM` in a cluster of short options becomes `-C NUM`.
pub open spec fn expand_args(args: Seq<Seq<u8>>) -> Seq<Seq<u8>> {
    if args.len() == 0 {
        seq![]
    } else {
        seq![args[0]] + expand_rest(args.subrange(1, args.len() as int))
    }
}

// ---------------------------------------------------------------------------
// Lemmas
// ---------------------------------------------------------------------------

proof fn lemma_first_index(s: Seq<u8>, from: int, p: spec_fn(u8) -> bool)
    requires
        0 <= from <= s.len(),
    ensures
        from <= first_index(s, from, p) <= s.len(),
        forall|k: int| from <= k < first_index(s, from, p) ==> !p(#[trigger] s[k]),
        first_index(s, from, p) < s.len() ==> p(s[first_index(s, from, p)]),
    decreases s.len() - from,
{
    if from < s.len() && !p(s[from]) {
        lemma_first_index(s, from + 1, p);
    }
}

/// An index with the defining properties is the first index.
proof fn lemma_first_index_unique(s: Seq<u8>, from: int, p: spec_fn(u8) -> bool, k: int)
    requires
        0 <= from <= k <= s.len(),
        forall|j: int| from <= j < k ==> !p(#[trigger] s[j]),
        k < s.len() ==> p(s[k]),
    ensures
        first_index(s, from, p) == k,
    decreases k - from,
{
    if from < k {
        lemma_first_index_unique(s, from + 1, p, k);
    }
}

/// An argument without an ASCII digit is never rewritten.
proof fn lemma_rewrite_no_digit(a: Seq<u8>)
    requires
        forall|k: int| 0 <= k < a.len() ==> !is_digit(#[trigger] a[k]),
    ensures
        rewrite_arg(a) == seq![a],
{
    if is_short_cluster(a) {
        lemma_first_index(a, 1, |b: u8| is_scan_stop(b));
    }
}

// ---------------------------------------------------------------------------
// Executable code
// ---------------------------------------------------------------------------

fn is_digit_byte(b: u8) -> (r: bool)
    ensures
        r == is_digit(b),
{
    48 <= b && b <= 57
}

fn short_takes_value_byte(b: u8) -> (r: bool)
    ensures
        r == short_takes_value(b),
{
    b == 101 || b == 102 || b == 109 || b == 65 || b == 66 || b == 67 || b == 68 || b == 100
}

/// Whether `a[from..]` equals `word`.
fn tail_equals(a: &Vec<u8>, from: usize, word: &[u8]) -> (r: bool)
    requires
        from <= a.len(),
    ensures
        r == (a@.subrange(from as int, a.len() as int) == word@),
{
    if a.len() - from != word.len() {
        assert(a@.subrange(from as int, a.len() as int).len() != word@.len());
        return false;
    }
    let mut k: usize = 0;
    while k < word.len()
        invariant
            from + word.len() == a.len(),
            k <= word.len(),
            forall|j: int| 0 <= j < k ==> a@[from + j] == word@[j],
        decreases word.len() - k,
    {
        if a[from + k] != word[k] {
            assert(a@.subrange(from as int, a.len() as int)[k as int] != word@[k as int]);
            return false;
        }
        k = k + 1;
    }
    assert(a@.subrange(from as int, a.len() as int) =~= word@);
    true
}

fn long_takes_value_exec(a: &Vec<u8>) -> (r: bool)
    requires
        a.len() >= 2,
    ensures
        r == long_takes_value(a@.subrange(2, a.len() as int)),
{
    let regexp: [u8; 6] = [114, 101, 103, 101, 120, 112];
    let file: [u8; 4] = [102, 105, 108, 101];
    let max_count: [u8; 9] = [109, 97, 120, 45, 99, 111, 117, 110, 116];
    let label: [u8; 5] = [108, 97, 98, 101, 108];
    let after_context: [u8; 13] = [97, 102, 116, 101, 114, 45, 99, 111, 110, 116, 101, 120, 116];
    let before_context: [u8; 14] = [
        98, 101, 102, 111, 114, 101, 45, 99, 111, 110, 116, 101, 120, 116,
    ];
    let context: [u8; 7] = [99, 111, 110, 116, 101, 120, 116];
    let devices: [u8; 7] = [100, 101, 118, 105, 99, 101, 115];
    let directories: [u8; 11] = [100, 105, 114, 101, 99, 116, 111, 114, 105, 101, 115];
    let binary_files: [u8; 12] = [98, 105, 110, 97, 114, 121, 45, 102, 105, 108, 101, 115];
    let incl: [u8; 7] = [105, 110, 99, 108, 117, 100, 101];
    let exclude: [u8; 7] = [101, 120, 99, 108, 117, 100, 101];
    let exclude_from: [u8; 12] = [101, 120, 99, 108, 117, 100, 101, 45, 102, 114, 111, 109];
    let exclude_dir: [u8; 11] = [101, 120, 99, 108, 117, 100, 101, 45, 100, 105, 114];
    let group_separator: [u8; 15] = [
        103, 114, 111, 117, 112, 45, 115, 101, 112, 97, 114, 97, 116, 111, 114,
    ];
    assert(regexp@ =~= seq![114u8, 101, 103, 101, 120, 112]);
    assert(file@ =~= seq![102u8, 105, 108, 101]);
    assert(max_count@ =~= seq![109u8, 97, 120, 45, 99, 111, 117, 110, 116]);
    assert(label@ =~= seq![108u8, 97, 98, 101, 108]);
    assert(after_context@ =~= seq![97u8, 102, 116, 101, 114, 45, 99, 111, 110, 116, 101, 120, 116]);
    assert(before_context@ =~= seq![
        98u8, 101, 102, 111, 114, 101, 45, 99, 111, 110, 116, 101, 120, 116,
    ]);
    assert(context@ =~= seq![99u8, 111, 110, 116, 101, 120, 116]);
    assert(devices@ =~= seq![100u8, 101, 118, 105, 99, 101, 115]);
    assert(directories@ =~= seq![100u8, 105, 114, 101, 99, 116, 111, 114, 105, 101, 115]);
    assert(binary_files@ =~= seq![98u8, 105, 110, 97, 114, 121, 45, 102, 105, 108, 101, 115]);
    assert(incl@ =~= seq![105u8, 110, 99, 108, 117, 100, 101]);
    assert(exclude@ =~= seq![101u8, 120, 99, 108, 117, 100, 101]);
    assert(exclude_from@ =~= seq![101u8, 120, 99, 108, 117, 100, 101, 45, 102, 114, 111, 109]);
    assert(exclude_dir@ =~= seq![101u8, 120, 99, 108, 117, 100, 101, 45, 100, 105, 114]);
    assert(group_separator@ =~= seq![
        103u8, 114, 111, 117, 112, 45, 115, 101, 112, 97, 114, 97, 116, 111, 114,
    ]);
    tail_equals(a, 2, regexp.as_slice()) || tail_equals(a, 2, file.as_slice()) || tail_equals(
        a,
        2,
        max_count.as_slice(),
    ) || tail_equals(a, 2, label.as_slice()) || tail_equals(a, 2, after_context.as_slice())
        || tail_equals(a, 2, before_context.as_slice()) || tail_equals(a, 2, context.as_slice())
        || tail_equals(a, 2, devices.as_slice()) || tail_equals(a, 2, directories.as_slice())
        || tail_equals(a, 2, binary_files.as_slice()) || tail_equals(a, 2, incl.as_slice())
        || tail_equals(a, 2, exclude.as_slice()) || tail_equals(a, 2, exclude_from.as_slice())
        || tail_equals(a, 2, exclude_dir.as_slice()) || tail_equals(
        a,
        2,
        group_separator.as_slice(),
    )
}

fn is_scan_stop_byte(b: u8) -> (r: bool)
    ensures
        r == is_scan_stop(b),
{
    is_digit_byte(b) || b >= 128 || short_takes_value_byte(b)
}

fn claims_rest_byte(b: u8) -> (r: bool)
    ensures
        r == claims_rest(b),
{
    b >= 128 || short_takes_value_byte(b)
}

fn copy_bytes(a: &Vec<u8>) -> (r: Vec<u8>)
    ensures
        r@ == a@,
        r.deep_view() == a@,
{
    let r = a.clone();
    assert(r@ =~= a@);
    proof {
        lemma_bytes_deep_view(r);
    }
    r
}

proof fn lemma_bytes_deep_view(x: Vec<u8>)
    ensures
        x.deep_view() == x@,
{
    assert(x.deep_view() =~= x@);
}

/// The dash prefix of a run (`-C` before a number, `-` before letters)
/// followed by `a[start..stop]`.
fn make_arg(a: &Vec<u8>, start: usize, stop: usize, number: bool) -> (r: Vec<u8>)
    requires
        start <= stop <= a.len(),
    ensures
        r@ == (if number {
            seq![45u8, 67u8]
        } else {
            seq![45u8]
        }) + a@.subrange(start as int, stop as int),
        r.deep_view() == r@,
{
    let mut r: Vec<u8> = Vec::new();
    r.push(45);
    if number {
        r.push(67);
    }
    let ghost prefix = r@;
    let mut k = start;
    while k < stop
        invariant
            start <= k <= stop <= a.len(),
            prefix == (if number {
                seq![45u8, 67u8]
            } else {
                seq![45u8]
            }),
            r@ == prefix + a@.subrange(start as int, k as int),
        decreases stop - k,
    {
        r.push(a[k]);
        k = k + 1;
        assert(a@.subrange(start as int, k as int) =~= a@.subrange(start as int, k - 1).push(
            a@[k - 1],
        ));
    }
    proof {
        lemma_bytes_deep_view(r);
    }
    r
}

proof fn lemma_map_concat(x: Seq<Seq<u8>>, y: Seq<Seq<u8>>)
    ensures
        (x + y).map_values(|r: Seq<u8>| run_to_arg(r)) == x.map_values(|r: Seq<u8>| run_to_arg(r))
            + y.map_values(|r: Seq<u8>| run_to_arg(r)),
{
    assert((x + y).map_values(|r: Seq<u8>| run_to_arg(r)) =~= x.map_values(
        |r: Seq<u8>| run_to_arg(r),
    ) + y.map_values(|r: Seq<u8>| run_to_arg(r)));
}

/// The arguments that `a` becomes, and whether the argument after it is an
/// option value that must be passed on untouched.
fn rewrite_one(a: &Vec<u8>) -> (res: (Vec<Vec<u8>>, bool))
    requires
        !is_end_of_options(a@),
    ensures
        res.0.deep_view() == rewrite_arg(a@),
        res.1 == value_follows(a@),
{
    let len = a.len();
    if len >= 2 && a[0] == 45 && a[1] == 45 {
        let follows = long_takes_value_exec(a);
        let mut v: Vec<Vec<u8>> = Vec::new();
        v.push(copy_bytes(a));
        assert(v.deep_view() =~= seq![a@]);
        return (v, follows);
    }
    if len == 0 || a[0] != 45 {
        let mut v: Vec<Vec<u8>> = Vec::new();
        v.push(copy_bytes(a));
        assert(v.deep_view() =~= seq![a@]);
        return (v, false);
    }
    // A cluster of short options: find the first byte that is no plain option letter.

    let mut at: usize = 1;
    while at < len && !is_scan_stop_byte(a[at])
        invariant
            1 <= at <= len == a.len(),
            forall|k: int| 1 <= k < at ==> !is_scan_stop(#[trigger] a@[k]),
        decreases len - at,
    {
        at = at + 1;
    }
    proof {
        lemma_first_index_unique(a@, 1, |b: u8| is_scan_stop(b), at as int);
    }
    if at == len || !is_digit_byte(a[at]) {
        let follows = at < len && at + 1 == len && short_takes_value_byte(a[at]);
        let mut v: Vec<Vec<u8>> = Vec::new();
        v.push(copy_bytes(a));
        assert(v.deep_view() =~= seq![a@]);
        return (v, follows);
    }
    // Translate up to the first byte that claims the rest of the argument.

    let mut end: usize = at;
    while end < len && !claims_rest_byte(a[end])
        invariant
            at <= end <= len == a.len(),
            forall|k: int| at <= k < end ==> !claims_rest(#[trigger] a@[k]),
        decreases len - end,
    {
        end = end + 1;
    }
    proof {
        lemma_first_index_unique(a@, at as int, |b: u8| claims_rest(b), end as int);
        assert(end > at);
    }
    let ghost whole = a@.subrange(1, end as int);
    let mut pieces: Vec<Vec<u8>> = Vec::new();
    let mut start: usize = 1;
    while start < end
        invariant
            1 <= start <= end <= len == a.len(),
            whole == a@.subrange(1, end as int),
            pieces.deep_view() + digit_runs(a@.subrange(start as int, end as int)).map_values(
                |r: Seq<u8>| run_to_arg(r),
            ) == digit_runs(whole).map_values(|r: Seq<u8>| run_to_arg(r)),
        decreases end - start,
    {
        let number = is_digit_byte(a[start]);
        let mut j: usize = start + 1;
        while j < end && is_digit_byte(a[j]) == number
            invariant
                start < j <= end <= len == a.len(),
                number == is_digit(a@[start as int]),
                forall|k: int| start < k < j ==> is_digit(#[trigger] a@[k]) == number,
            decreases end - j,
        {
            j = j + 1;
        }
        let ghost s = a@.subrange(start as int, end as int);
        proof {
            let p = |b: u8| is_digit(b) != is_digit(s[0]);
            assert forall|k: int| 1 <= k < j - start implies !p(#[trigger] s[k]) by {
                assert(s[k] == a@[start + k]);
            }
            if j < end {
                assert(s[j - start] == a@[j as int]);
            }
            lemma_first_index_unique(s, 1, p, j - start);
            assert(run_len(s) == j - start);
            assert(s.subrange(0, j - start) =~= a@.subrange(start as int, j as int));
            assert(s.subrange(j - start, s.len() as int) =~= a@.subrange(j as int, end as int));
            assert(digit_runs(s) == seq![a@.subrange(start as int, j as int)] + digit_runs(
                a@.subrange(j as int, end as int),
            ));
            lemma_map_concat(
                seq![a@.subrange(start as int, j as int)],
                digit_runs(a@.subrange(j as int, end as int)),
            );
        }
        let piece = make_arg(a, start, j, number);
        proof {
            let run = a@.subrange(start as int, j as int);
            assert(run[0] == a@[start as int]);
            assert(piece@ == run_to_arg(run));
            assert(seq![run].map_values(|r: Seq<u8>| run_to_arg(r)) =~= seq![run_to_arg(run)]);
        }
        let ghost old_pieces = pieces.deep_view();
        pieces.push(piece);
        assert(pieces.deep_view() =~= old_pieces.push(piece@));
        start = j;
    }
    proof {
        let e = a@.subrange(end as int, end as int);
        assert(e =~= Seq::<u8>::empty());
        assert(digit_runs(e) == Seq::<Seq<u8>>::empty());
        assert(digit_runs(e).map_values(|r: Seq<u8>| run_to_arg(r)) =~= Seq::<Seq<u8>>::empty());
        assert(pieces.deep_view() =~= digit_runs(whole).map_values(|r: Seq<u8>| run_to_arg(r)));
    }
    if end < len {
        let tail = make_arg(a, end, len, false);
        let ghost before = pieces.deep_view();
        pieces.push(tail);
        assert(pieces.deep_view() =~= before + seq![seq![45u8] + a@.subrange(end as int, len as int)]);
    } else {
        assert(pieces.deep_view() =~= pieces.deep_view() + Seq::<Seq<u8>>::empty());
    }
    let follows = end < len && end + 1 == len && short_takes_value_byte(a[end]);
    (pieces, follows)
}

/// Rewrites GNU grep's `-NUM` shorthand into `-C NUM`, so that `-5` becomes
/// `-C5` and `-a12b` becomes `-a -C12 -b`.  The first argument is the
/// program name and is kept.  Option values (`-e -5`, `--regexp -5`),
/// arguments that are no options, and everything after `--` are kept as they
/// are; the scan of a cluster stops at the first byte that claims the rest of
/// the argument (an option letter that takes a value, or a non-ASCII byte).
pub fn expand_num_shorthand(args: Vec<Vec<u8>>) -> (out: Vec<Vec<u8>>)
    ensures
        out.deep_view() == expand_args(args.deep_view()),
{
    let n = args.len();
    let ghost dv = args.deep_view();
    let mut out: Vec<Vec<u8>> = Vec::new();
    if n == 0 {
        assert(out.deep_view() =~= expand_args(dv));
        return out;
    }
    out.push(copy_bytes(&args[0]));
    let mut i: usize = 1;
    assert(out.deep_view() =~= seq![dv[0]]);
    while i < n
        invariant
            1 <= i <= n == args.len(),
            dv == args.deep_view(),
            out.deep_view() + expand_rest(dv.subrange(i as int, n as int)) == expand_args(dv),
        decreases n - i,
    {
        let ghost rest = dv.subrange(i as int, n as int);
        assert(rest[0] == args[i as int]@);
        if args[i].len() == 2 && args[i][0] == 45 && args[i][1] == 45 {
            assert(is_end_of_options(rest[0])) by {
                assert(args[i as int]@ =~= seq![45u8, 45u8]);
            }
            // Nothing after `--` is an option.
            let ghost head = out.deep_view();
            let mut k = i;
            while k < n
                invariant
                    i <= k <= n == args.len(),
                    dv == args.deep_view(),
                    out.deep_view() == head + dv.subrange(i as int, k as int),
                decreases n - k,
            {
                let ghost before = out.deep_view();
                out.push(copy_bytes(&args[k]));
                assert(out.deep_view() =~= before.push(dv[k as int]));
                k = k + 1;
                assert(dv.subrange(i as int, k as int) =~= dv.subrange(i as int, k - 1).push(
                    dv[k - 1],
                ));
            }
            return out;
        }
        assert(!is_end_of_options(rest[0])) by {
            if is_end_of_options(rest[0]) {
                assert(args[i as int]@.len() == 2);
                assert(args[i as int]@[0] == 45);
                assert(args[i as int]@[1] == 45);
            }
        }
        let (pieces, follows) = rewrite_one(&args[i]);
        let ghost head = out.deep_view();
        let mut k: usize = 0;
        while k < pieces.len()
            invariant
                k <= pieces.len(),
                out.deep_view() == head + pieces.deep_view().subrange(0, k as int),
            decreases pieces.len() - k,
        {
            let ghost before = out.deep_view();
            out.push(copy_bytes(&pieces[k]));
            assert(out.deep_view() =~= before.push(pieces.deep_view()[k as int]));
            k = k + 1;
            assert(pieces.deep_view().subrange(0, k as int) =~= pieces.deep_view().subrange(
                0,
                k - 1,
            ).push(pieces.deep_view()[k - 1]));
        }
        assert(pieces.deep_view().subrange(0, k as int) =~= pieces.deep_view());
        if follows && i + 1 < n {
            let ghost before = out.deep_view();
            out.push(copy_bytes(&args[i + 1]));
            assert(out.deep_view() =~= before.push(dv[i + 1]));
            assert(rest.subrange(2, rest.len() as int) =~= dv.subrange(i + 2, n as int));
            assert(rest[1] == dv[i + 1]);
            i = i + 2;
        } else {
            assert(rest.subrange(1, rest.len() as int) =~= dv.subrange(i + 1, n as int));
            i = i + 1;
        }
    }
    assert(dv.subrange(n as int, n as int) =~= Seq::<Seq<u8>>::empty());
    assert(out.deep_view() + Seq::<Seq<u8>>::empty() =~= out.deep_view());
    out
}

/// No argument holds an ASCII digit.
pub open spec fn digit_free(args: Seq<Seq<u8>>) -> bool {
    forall|i: int, k: int|
        0 <= i < args.len() && 0 <= k < args[i].len() ==> !is_digit(#[trigger] args[i][k])
}

proof fn lemma_expand_rest_digit_free(args: Seq<Seq<u8>>)
    requires
        digit_free(args),
    ensures
        expand_rest(args) == args,
    decreases args.len(),
{
    if args.len() > 0 && !is_end_of_options(args[0]) {
        assert forall|k: int| 0 <= k < args[0].len() implies !is_digit(#[trigger] args[0][k]) by {
            assert(!is_digit(args[0][k]));
        }
        lemma_rewrite_no_digit(args[0]);
        if value_follows(args[0]) && args.len() >= 2 {
            let tail = args.subrange(2, args.len() as int);
            assert forall|i: int, k: int| 0 <= i < tail.len() && 0 <= k < tail[i].len() implies !is_digit(
                #[trigger] tail[i][k],
            ) by {
                assert(tail[i] == args[i + 2]);
            }
            lemma_expand_rest_digit_free(tail);
            assert(seq![args[0]] + seq![args[1]] + tail =~= args);
        } else {
            let tail = args.subrange(1, args.len() as int);
            assert forall|i: int, k: int| 0 <= i < tail.len() && 0 <= k < tail[i].len() implies !is_digit(
                #[trigger] tail[i][k],
            ) by {
                assert(tail[i] == args[i + 1]);
            }
            lemma_expand_rest_digit_free(tail);
            assert(seq![args[0]] + tail =~= args);
        }
    }
}

/// Only numbers are rewritten: a command line in which no argument holds an
/// ASCII digit comes back unchanged.
pub proof fn law_digit_free_unchanged(args: Seq<Seq<u8>>)
    requires
        digit_free(args),
    ensures
        expand_args(args) == args,
{
    if args.len() > 0 {
        let tail = args.subrange(1, args.len() as int);
        assert forall|i: int, k: int| 0 <= i < tail.len() && 0 <= k < tail[i].len() implies !is_digit(
            #[trigger] tail[i][k],
        ) by {
            assert(tail[i] == args[i + 1]);
        }
        lemma_expand_rest_digit_free(tail);
        assert(seq![args[0]] + tail =~= args);
    }
}

/// The program name is never rewritten, and an argument list that starts
/// with `--` after it comes back unchanged.
pub proof fn law_program_name_and_end_of_options(args: Seq<Seq<u8>>)
    requires
        args.len() >= 1,
    ensures
        expand_args(args)[0] == args[0],
        args.len() >= 2 && is_end_of_options(args[1]) ==> expand_args(args) == args,
{
    if args.len() >= 2 && is_end_of_options(args[1]) {
        assert(seq![args[0]] + args.subrange(1, args.len() as int) =~= args);
    }
}

// ---------------------------------------------------------------------------
// What the pieces of a rewritten argument are
// ---------------------------------------------------------------------------

/// A run as `digit_runs` cuts it from bytes that claim nothing: non-empty,
/// all digits or all non-digits.
pub open spec fn good_run(r: Seq<u8>) -> bool {
    &&& r.len() >= 1
    &&& forall|k: int|
        0 <= k < r.len() ==> !claims_rest(#[trigger] r[k]) && is_digit(r[k]) == is_digit(r[0])
}

proof fn lemma_digit_runs(s: Seq<u8>)
    requires
        forall|k: int| 0 <= k < s.len() ==> !claims_rest(#[trigger] s[k]),
    ensures
        s.len() > 0 ==> digit_runs(s).len() >= 1,
        forall|i: int| 0 <= i < digit_runs(s).len() ==> good_run(#[trigger] digit_runs(s)[i]),
    decreases s.len(),
{
    if s.len() > 0 {
        let p = |b: u8| is_digit(b) != is_digit(s[0]);
        lemma_first_index(s, 1, p);
        let n = run_len(s);
        assert(n == first_index(s, 1, p));
        let head = s.subrange(0, n);
        let t = s.subrange(n, s.len() as int);
        assert forall|k: int| 0 <= k < t.len() implies !claims_rest(#[trigger] t[k]) by {
            assert(t[k] == s[n + k]);
        }
        lemma_digit_runs(t);
        assert(good_run(head)) by {
            assert forall|k: int| 0 <= k < head.len() implies !claims_rest(#[trigger] head[k])
                && is_digit(head[k]) == is_digit(head[0]) by {
                assert(head[k] == s[k]);
                if k > 0 {
                    assert(!p(s[k]));
                }
            }
        }
        let runs = digit_runs(s);
        assert(runs == seq![head] + digit_runs(t));
        assert forall|i: int| 0 <= i < runs.len() implies good_run(#[trigger] runs[i]) by {
            if i > 0 {
                assert(runs[i] == digit_runs(t)[i - 1]);
            }
        }
    }
}

/// Every long option that takes a value has a value-taking letter in its
/// name.
proof fn lemma_long_name_has_value_letter(w: Seq<u8>)
    requires
        forall|k: int| 0 <= k < w.len() ==> !short_takes_value(#[trigger] w[k]),
    ensures
        !long_takes_value(w),
{
    if w.len() > 0 {
        assert(!short_takes_value(w[0]));
    }
    if w.len() > 1 {
        assert(!short_takes_value(w[1]));
    }
    if w.len() > 3 {
        assert(!short_takes_value(w[3]));
    }
    if w.len() > 4 {
        assert(!short_takes_value(w[4]));
    }
    if w.len() > 5 {
        assert(!short_takes_value(w[5]));
    }
    if w.len() > 7 {
        assert(!short_takes_value(w[7]));
    }
}

/// The piece made of a number: `-C` and the digits.
proof fn lemma_number_piece(r: Seq<u8>)
    requires
        good_run(r),
        is_digit(r[0]),
    ensures
        rewrite_arg(run_to_arg(r)) == seq![run_to_arg(r)],
        !value_follows(run_to_arg(r)),
        !is_end_of_options(run_to_arg(r)),
{
    let q = run_to_arg(r);
    assert(q == seq![45u8, 67u8] + r);
    assert(q[1] == 67);
    lemma_first_index_unique(q, 1, |b: u8| is_scan_stop(b), 1);
}

/// The piece made of option letters: a dash and the letters.
proof fn lemma_letter_piece(r: Seq<u8>)
    requires
        good_run(r),
        !is_digit(r[0]),
    ensures
        rewrite_arg(run_to_arg(r)) == seq![run_to_arg(r)],
        !value_follows(run_to_arg(r)),
{
    let q = run_to_arg(r);
    assert(q == seq![45u8] + r);
    assert forall|k: int| 1 <= k < q.len() implies !is_scan_stop(#[trigger] q[k]) by {
        assert(q[k] == r[k - 1]);
        assert(!claims_rest(r[k - 1]));
        assert(!is_digit(r[k - 1]));
    }
    if r[0] == 45 {
        let w = q.subrange(2, q.len() as int);
        assert forall|k: int| 0 <= k < w.len() implies !short_takes_value(#[trigger] w[k]) by {
            assert(w[k] == r[k + 1]);
            assert(!claims_rest(r[k + 1]));
        }
        lemma_long_name_has_value_letter(w);
    } else {
        lemma_first_index_unique(q, 1, |b: u8| is_scan_stop(b), q.len() as int);
    }
}

/// What a rewritten argument is made of: at least one piece; each piece
/// comes back unchanged from a second rewriting; no piece but the last is
/// followed by an option value, and the last is exactly when the argument
/// was.
proof fn lemma_pieces(a: Seq<u8>)
    requires
        !is_end_of_options(a),
    ensures
        rewrite_arg(a).len() >= 1,
        forall|i: int|
            0 <= i < rewrite_arg(a).len() ==> rewrite_arg(#[trigger] rewrite_arg(a)[i]) == seq![
                rewrite_arg(a)[i],
            ],
        forall|i: int|
            0 <= i < rewrite_arg(a).len() - 1 ==> !value_follows(#[trigger] rewrite_arg(a)[i]),
        value_follows(rewrite_arg(a).last()) == value_follows(a),
{
    let p = rewrite_arg(a);
    if !has_number(a) {
        assert(p == seq![a]);
        assert(p[0] == a);
    } else {
        let at = scan_stop(a);
        lemma_first_index(a, 1, |b: u8| is_scan_stop(b));
        lemma_first_index(a, at, |b: u8| claims_rest(b));
        let end = translated_end(a);
        assert(end > at) by {
            assert(!claims_rest(a[at]));
        }
        let s = a.subrange(1, end);
        assert forall|k: int| 0 <= k < s.len() implies !claims_rest(#[trigger] s[k]) by {
            assert(s[k] == a[k + 1]);
            if k + 1 < at {
                assert(!is_scan_stop(a[k + 1]));
            }
        }
        lemma_digit_runs(s);
        let runs = digit_runs(s);
        let mapped = runs.map_values(|r: Seq<u8>| run_to_arg(r));
        let rest = a.subrange(end, a.len() as int);
        let tail: Seq<Seq<u8>> = if rest.len() > 0 {
            seq![seq![45u8] + rest]
        } else {
            seq![]
        };
        assert(p == mapped + tail);
        assert forall|i: int| 0 <= i < mapped.len() implies rewrite_arg(#[trigger] mapped[i])
            == seq![mapped[i]] && !value_follows(mapped[i]) by {
            assert(good_run(runs[i]));
            if is_digit(runs[i][0]) {
                lemma_number_piece(runs[i]);
            } else {
                lemma_letter_piece(runs[i]);
            }
        }
        if rest.len() > 0 {
            let q = seq![45u8] + rest;
            assert(claims_rest(a[end]));
            assert(rest[0] == a[end]);
            assert(q[1] == a[end]);
            lemma_first_index_unique(q, 1, |b: u8| is_scan_stop(b), 1);
            assert(!has_number(q));
            assert(p[p.len() - 1] == q);
            assert forall|i: int| 0 <= i < p.len() implies rewrite_arg(#[trigger] p[i]) == seq![
                p[i],
            ] by {
                if i < mapped.len() {
                    assert(p[i] == mapped[i]);
                }
            }
            assert forall|i: int| 0 <= i < p.len() - 1 implies !value_follows(#[trigger] p[i]) by {
                assert(p[i] == mapped[i]);
            }
        } else {
            assert(p == mapped);
            assert(mapped[mapped.len() - 1] == p.last());
        }
    }
}

/// Some piece is the end-of-options marker `--`.
pub open spec fn has_end_marker(p: Seq<Seq<u8>>) -> bool {
    exists|i: int| 0 <= i < p.len() && is_end_of_options(#[trigger] p[i])
}

/// How the rewriting goes on after a last piece that is (`f`) or is not
/// followed by an option value.
pub open spec fn continue_after(f: bool, x: Seq<Seq<u8>>) -> Seq<Seq<u8>> {
    if f && x.len() >= 1 {
        seq![x[0]] + expand_rest(x.subrange(1, x.len() as int))
    } else {
        expand_rest(x)
    }
}

/// Rewriting the pieces of an argument again, followed by `x`.
proof fn lemma_expand_pieces(p: Seq<Seq<u8>>, x: Seq<Seq<u8>>, f: bool)
    requires
        p.len() >= 1,
        forall|i: int| 0 <= i < p.len() ==> rewrite_arg(#[trigger] p[i]) == seq![p[i]],
        forall|i: int| 0 <= i < p.len() - 1 ==> !value_follows(#[trigger] p[i]),
        value_follows(p.last()) == f,
    ensures
        expand_rest(p + x) == if has_end_marker(p) {
            p + x
        } else {
            p + continue_after(f, x)
        },
    decreases p.len(),
{
    let y = p + x;
    assert(y[0] == p[0]);
    assert(rewrite_arg(p[0]) == seq![p[0]]);
    if is_end_of_options(p[0]) {
        assert(has_end_marker(p));
    } else if p.len() == 1 {
        assert(!has_end_marker(p)) by {
            if has_end_marker(p) {
                let i = choose|i: int| 0 <= i < p.len() && is_end_of_options(#[trigger] p[i]);
                assert(i == 0);
            }
        }
        if f && x.len() >= 1 {
            assert(y[1] == x[0]);
            assert(y.subrange(2, y.len() as int) =~= x.subrange(1, x.len() as int));
            assert(expand_rest(y) =~= p + continue_after(f, x));
        } else {
            assert(y.subrange(1, y.len() as int) =~= x);
            assert(expand_rest(y) =~= p + continue_after(f, x));
        }
    } else {
        let q = p.drop_first();
        assert(!value_follows(p[0]));
        assert forall|i: int| 0 <= i < q.len() implies rewrite_arg(#[trigger] q[i]) == seq![q[i]] by {
            assert(q[i] == p[i + 1]);
        }
        assert forall|i: int| 0 <= i < q.len() - 1 implies !value_follows(#[trigger] q[i]) by {
            assert(q[i] == p[i + 1]);
        }
        assert(q.last() == p.last());
        lemma_expand_pieces(q, x, f);
        assert(y.subrange(1, y.len() as int) =~= q + x);
        assert(has_end_marker(p) == has_end_marker(q)) by {
            if has_end_marker(p) {
                let i = choose|i: int| 0 <= i < p.len() && is_end_of_options(#[trigger] p[i]);
                assert(q[i - 1] == p[i]);
            }
            if has_end_marker(q) {
                let i = choose|i: int| 0 <= i < q.len() && is_end_of_options(#[trigger] q[i]);
                assert(p[i + 1] == q[i]);
            }
        }
        assert(seq![p[0]] + (q + x) =~= p + x);
        assert(seq![p[0]] + (q + continue_after(f, x)) =~= p + continue_after(f, x));
    }
}

proof fn lemma_expand_rest_idempotent(args: Seq<Seq<u8>>)
    ensures
        expand_rest(expand_rest(args)) == expand_rest(args),
        expand_rest(args).len() >= args.len(),
    decreases args.len(),
{
    if args.len() > 0 && !is_end_of_options(args[0]) {
        let a = args[0];
        let p = rewrite_arg(a);
        let f = value_follows(a);
        lemma_pieces(a);
        assert forall|i: int| 0 <= i < p.len() implies rewrite_arg(#[trigger] p[i]) == seq![p[i]] by {
        }
        if f && args.len() >= 2 {
            let t = args.subrange(2, args.len() as int);
            lemma_expand_rest_idempotent(t);
            let e = expand_rest(t);
            let x = seq![args[1]] + e;
            assert(expand_rest(args) =~= p + x);
            lemma_expand_pieces(p, x, f);
            assert(x.subrange(1, x.len() as int) =~= e);
        } else {
            let t = args.subrange(1, args.len() as int);
            lemma_expand_rest_idempotent(t);
            let e = expand_rest(t);
            assert(expand_rest(args) == p + e);
            lemma_expand_pieces(p, e, f);
            if f {
                assert(t.len() == 0);
                assert(e == Seq::<Seq<u8>>::empty());
            }
        }
    }
}

/// Rewriting twice is rewriting once: the pieces of a rewritten argument
/// are never rewritten again.
pub proof fn law_rewriting_is_idempotent(args: Seq<Seq<u8>>)
    ensures
        expand_args(expand_args(args)) == expand_args(args),
{
    if args.len() > 0 {
        let r = expand_rest(args.subrange(1, args.len() as int));
        lemma_expand_rest_idempotent(args.subrange(1, args.len() as int));
        let o = seq![args[0]] + r;
        assert(o[0] == args[0]);
        assert(o.subrange(1, o.len() as int) =~= r);
    }
}

/// Rewriting never shortens the command line.
pub proof fn law_rewriting_never_shortens(args: Seq<Seq<u8>>)
    ensures
        expand_args(args).len() >= args.len(),
{
    if args.len() > 0 {
        lemma_expand_rest_idempotent(args.subrange(1, args.len() as int));
    }
}

/// Whether the argument at `j` is read as a possible option (not as the
/// value of the option before it, nor after a `--`) by the rewriting of
/// the arguments that follow the program name.
pub open spec fn is_option_position(args: Seq<Seq<u8>>, j: int) -> bool
    decreases args.len(),
{
    if args.len() == 0 || j < 0 {
        false
    } else if j == 0 {
        true
    } else if is_end_of_options(args[0]) {
        false
    } else if value_follows(args[0]) && args.len() >= 2 {
        j >= 2 && is_option_position(args.subrange(2, args.len() as int), j - 2)
    } else {
        is_option_position(args.subrange(1, args.len() as int), j - 1)
    }
}

/// A `--` met at an option position ends the options: it and everything
/// after it come back unchanged at the end of the rewritten arguments.
proof fn lemma_end_of_options_tail(args: Seq<Seq<u8>>, j: int)
    requires
        0 <= j < args.len(),
        is_option_position(args, j),
        is_end_of_options(args[j]),
    ensures
        expand_rest(args).len() >= args.len() - j,
        expand_rest(args).subrange(
            expand_rest(args).len() - (args.len() - j),
            expand_rest(args).len() as int,
        ) == args.subrange(j, args.len() as int),
    decreases args.len(),
{
    let o = expand_rest(args);
    if j == 0 {
        if is_end_of_options(args[0]) {
            assert(o.subrange(0, o.len() as int) =~= args.subrange(0, args.len() as int));
        }
    } else {
        let a = args[0];
        let p = rewrite_arg(a);
        if value_follows(a) && args.len() >= 2 {
            let t = args.subrange(2, args.len() as int);
            lemma_end_of_options_tail(t, j - 2);
            assert(t[j - 2] == args[j]);
            let e = expand_rest(t);
            assert(o == p + seq![args[1]] + e);
            assert(o.subrange(o.len() - (args.len() - j), o.len() as int) =~= e.subrange(
                e.len() - (t.len() - (j - 2)),
                e.len() as int,
            ));
            assert(t.subrange(j - 2, t.len() as int) =~= args.subrange(j, args.len() as int));
        } else {
            let t = args.subrange(1, args.len() as int);
            lemma_end_of_options_tail(t, j - 1);
            assert(t[j - 1] == args[j]);
            let e = expand_rest(t);
            assert(o == p + e);
            assert(o.subrange(o.len() - (args.len() - j), o.len() as int) =~= e.subrange(
                e.len() - (t.len() - (j - 1)),
                e.len() as int,
            ));
            assert(t.subrange(j - 1, t.len() as int) =~= args.subrange(j, args.len() as int));
        }
    }
}

/// Everything from a `--` met at an option position on comes back
/// unchanged as the end of the rewritten command line.
pub proof fn law_end_of_options_kept(args: Seq<Seq<u8>>, j: int)
    requires
        1 <= j < args.len(),
        is_option_position(args.subrange(1, args.len() as int), j - 1),
        is_end_of_options(args[j]),
    ensures
        expand_args(args).len() >= args.len() - j,
        expand_args(args).subrange(
            expand_args(args).len() - (args.len() - j),
            expand_args(args).len() as int,
        ) == args.subrange(j, args.len() as int),
{
    let t = args.subrange(1, args.len() as int);
    assert(t[j - 1] == args[j]);
    lemma_end_of_options_tail(t, j - 1);
    let e = expand_rest(t);
    let o = seq![args[0]] + e;
    assert(o.subrange(o.len() - (args.len() - j), o.len() as int) =~= e.subrange(
        e.len() - (t.len() - (j - 1)),
        e.len() as int,
    ));
    assert(t.subrange(j - 1, t.len() as int) =~= args.subrange(j, args.len() as int));
}

/// The short option letters that take a value: `e`, `f`, `m`, `A`, `B`,
/// `C`, `D`, `d`, written out byte by byte.
pub open spec fn is_listed_value_letter(x: u8) -> bool {
    x == 101 || x == 102 || x == 109 || x == 65 || x == 66 || x == 67 || x == 68 || x == 100
}

/// A letter that takes a value claims the rest of its argument: `-xN`
/// (`-B2`, `-m10`, `-e123`, ...) comes back unchanged, nothing split out of
/// it, and the argument after it is read as usual.
pub proof fn law_value_letter_keeps_attached_value(
    program: Seq<u8>,
    x: u8,
    n: Seq<u8>,
    rest: Seq<Seq<u8>>,
)
    requires
        is_listed_value_letter(x),
        n.len() >= 1,
    ensures
        expand_args(seq![program, seq![45u8, x] + n] + rest) == seq![
            program,
            seq![45u8, x] + n,
        ] + expand_rest(rest),
{
    let a = seq![45u8, x] + n;
    assert(a[1] == x);
    lemma_first_index_unique(a, 1, |b: u8| is_scan_stop(b), 1);
    assert(!has_number(a));
    assert(!value_follows(a));
    let args = seq![program, a] + rest;
    let t = args.subrange(1, args.len() as int);
    assert(t =~= seq![a] + rest);
    assert(t[0] == a);
    assert(t.subrange(1, t.len() as int) =~= rest);
    assert(expand_args(args) =~= seq![program, a] + expand_rest(rest));
}

/// A letter that takes a value with nothing attached takes the next
/// argument as its value, which is passed on untouched: `-B -5` keeps `-5`.
pub proof fn law_value_letter_takes_next_argument(
    program: Seq<u8>,
    x: u8,
    value: Seq<u8>,
    rest: Seq<Seq<u8>>,
)
    requires
        is_listed_value_letter(x),
    ensures
        expand_args(seq![program, seq![45u8, x], value] + rest) == seq![
            program,
            seq![45u8, x],
            value,
        ] + expand_rest(rest),
{
    let a = seq![45u8, x];
    assert(a[1] == x);
    lemma_first_index_unique(a, 1, |b: u8| is_scan_stop(b), 1);
    assert(!has_number(a));
    assert(value_follows(a));
    let args = seq![program, a, value] + rest;
    let t = args.subrange(1, args.len() as int);
    assert(t =~= seq![a, value] + rest);
    assert(t[0] == a);
    assert(t[1] == value);
    assert(t.subrange(2, t.len() as int) =~= rest);
    assert(expand_args(args) =~= seq![program, a, value] + expand_rest(rest));
}

} // verus!
