use vstd::prelude::*;
use vstd::string::StringSliceAdditionalSpecFns;
use crate::text::{split_bytes, strs_bytes, push_pieces, byte_len};

verus! {

broadcast use vstd::string::group_string_axioms;

/// The patterns of one `-e` value: its lines, cut at every newline.
pub open spec fn expr_patterns(e: Seq<u8>) -> Seq<Seq<u8>> {
    split_bytes(e, 10)
}

/// The patterns of one `-f` file: none for an empty file, otherwise its
/// lines, where a final newline ends the last line instead of starting an
/// empty one.
pub open spec fn file_patterns(contents: Seq<u8>) -> Seq<Seq<u8>> {
    if contents.len() == 0 {
        seq![]
    } else if contents.last() == 10 {
        split_bytes(contents.drop_last(), 10)
    } else {
        split_bytes(contents, 10)
    }
}

/// All patterns in the order grep reads them: the `-e` values, then the
/// `-f` files, then the pattern given as the first operand.
pub open spec fn pattern_list(
    exprs: Seq<Seq<u8>>,
    files: Seq<Seq<u8>>,
    positional: Option<Seq<u8>>,
) -> Seq<Seq<u8>> {
    exprs.map_values(|e: Seq<u8>| expr_patterns(e)).flatten() + files.map_values(
        |c: Seq<u8>| file_patterns(c),
    ).flatten() + match positional {
        Some(p) => expr_patterns(p),
        None => seq![],
    }
}

/// The number of `true` among four flags.
pub open spec fn count_true(a: bool, b: bool, c: bool, d: bool) -> int {
    (if a {
        1int
    } else {
        0int
    }) + (if b {
        1int
    } else {
        0int
    }) + (if c {
        1int
    } else {
        0int
    }) + (if d {
        1int
    } else {
        0int
    })
}

/// A usage error; grep exits with status 2 on each.
pub enum UsageError {
    /// More than one of `-E`, `-F`, `-G`, `-P`.
    ConflictingMatchers,
    /// No pattern, and neither `-e` nor `-f`.
    NoPattern,
    /// More than one pattern with `-P`.
    PerlSinglePattern,
}

/// At most one of `-E`, `-F`, `-G` and `-P` may be given.
pub fn check_matchers(
    extended_regexp: bool,
    fixed_strings: bool,
    basic_regexp: bool,
    perl_regexp: bool,
) -> (r: Result<(), UsageError>)
    ensures
        r is Ok <==> count_true(extended_regexp, fixed_strings, basic_regexp, perl_regexp) <= 1,
        r matches Err(e) ==> e is ConflictingMatchers,
{
    let mut n: u8 = 0;
    if extended_regexp {
        n = n + 1;
    }
    if fixed_strings {
        n = n + 1;
    }
    if basic_regexp {
        n = n + 1;
    }
    if perl_regexp {
        n = n + 1;
    }
    if n > 1 {
        Err(UsageError::ConflictingMatchers)
    } else {
        Ok(())
    }
}

/// An empty pattern list is an error only when no `-e` or `-f` was given
/// (an empty `-f` file is legitimate and matches nothing); `-P` takes a
/// single pattern.
pub fn check_patterns(n_patterns: usize, has_explicit_patterns: bool, perl_regexp: bool) -> (r:
    Result<(), UsageError>)
    ensures
        (n_patterns == 0 && !has_explicit_patterns) ==> r == Err::<(), UsageError>(
            UsageError::NoPattern,
        ),
        !(n_patterns == 0 && !has_explicit_patterns) && perl_regexp && n_patterns > 1 ==> r
            == Err::<(), UsageError>(UsageError::PerlSinglePattern),
        !(n_patterns == 0 && !has_explicit_patterns) && !(perl_regexp && n_patterns > 1) ==> r
            is Ok,
{
    if n_patterns == 0 && !has_explicit_patterns {
        Err(UsageError::NoPattern)
    } else if perl_regexp && n_patterns > 1 {
        Err(UsageError::PerlSinglePattern)
    } else {
        Ok(())
    }
}

/// Drops the final byte of `s`, an ASCII newline.
fn drop_final_newline(s: &str) -> (r: &str)
    requires
        s.spec_bytes().len() > 0,
        s.spec_bytes().last() == 10,
    ensures
        r.spec_bytes() == s.spec_bytes().drop_last(),
{
    let n = byte_len(s);
    let (head, _nl) = crate::text::split_around(s, n - 1);
    assert(head.spec_bytes() =~= s.spec_bytes().drop_last());
    head
}

proof fn lemma_map_flatten_step(
    xs: Seq<Seq<u8>>,
    i: int,
    f: spec_fn(Seq<u8>) -> Seq<Seq<u8>>,
)
    requires
        0 <= i < xs.len(),
    ensures
        xs.take(i + 1).map_values(f).flatten() == xs.take(i).map_values(f).flatten() + f(xs[i]),
{
    assert(xs.take(i + 1).map_values(f) =~= xs.take(i).map_values(f).push(f(xs[i])));
    xs.take(i).map_values(f).lemma_flatten_push(f(xs[i]));
}

/// The pattern list: each `-e` value cut into lines, then the lines of each
/// `-f` file, then the lines of the first operand when it is the pattern.
/// The patterns borrow from the arguments.
pub fn collect_patterns<'a>(
    exprs: &[&'a str],
    files: &[&'a str],
    positional: Option<&'a str>,
) -> (r: Vec<&'a str>)
    ensures
        strs_bytes(r@) == pattern_list(
            strs_bytes(exprs@),
            strs_bytes(files@),
            match positional {
                Some(p) => Some(p.spec_bytes()),
                None => None,
            },
        ),
{
    let mut out: Vec<&'a str> = Vec::new();
    let ghost ex = strs_bytes(exprs@);
    let ghost fs = strs_bytes(files@);
    let mut i: usize = 0;
    while i < exprs.len()
        invariant
            i <= exprs@.len(),
            ex == strs_bytes(exprs@),
            strs_bytes(out@) == ex.take(i as int).map_values(|e: Seq<u8>| expr_patterns(e)).flatten(),
        decreases exprs@.len() - i,
    {
        push_pieces(&mut out, exprs[i], 10);
        proof {
            lemma_map_flatten_step(ex, i as int, |e: Seq<u8>| expr_patterns(e));
        }
        i = i + 1;
    }
    assert(ex.take(i as int) =~= ex);
    let ghost after_exprs = strs_bytes(out@);
    let mut j: usize = 0;
    while j < files.len()
        invariant
            j <= files@.len(),
            fs == strs_bytes(files@),
            strs_bytes(out@) == after_exprs + fs.take(j as int).map_values(
                |c: Seq<u8>| file_patterns(c),
            ).flatten(),
        decreases files@.len() - j,
    {
        let contents = files[j];
        let n = byte_len(contents);
        let ghost before = strs_bytes(out@);
        if n > 0 {
            let last = contents.as_bytes()[n - 1];
            if last == 10 {
                let body = drop_final_newline(contents);
                push_pieces(&mut out, body, 10);
            } else {
                push_pieces(&mut out, contents, 10);
            }
        } else {
            assert(strs_bytes(out@) =~= before + Seq::<Seq<u8>>::empty());
        }
        proof {
            lemma_map_flatten_step(fs, j as int, |c: Seq<u8>| file_patterns(c));
        }
        j = j + 1;
    }
    assert(fs.take(j as int) =~= fs);
    match positional {
        Some(p) => {
            push_pieces(&mut out, p, 10);
        },
        None => {
            assert(strs_bytes(out@) =~= strs_bytes(out@) + Seq::<Seq<u8>>::empty());
        },
    }
    out
}

/// Whether some pattern is empty (an empty pattern matches every line).
pub fn has_empty_pattern(patterns: &[&str]) -> (b: bool)
    ensures
        b == exists|i: int| 0 <= i < patterns@.len() && (#[trigger] patterns@[i])@.len() == 0,
{
    let mut i: usize = 0;
    while i < patterns.len()
        invariant
            i <= patterns@.len(),
            forall|j: int| 0 <= j < i ==> (#[trigger] patterns@[j])@.len() != 0,
        decreases patterns@.len() - i,
    {
        if patterns[i].is_empty() {
            assert((patterns@[i as int])@.len() == 0);
            return true;
        }
        i = i + 1;
    }
    false
}

/// A pattern file whose text ends in a newline holds the same patterns as
/// that text without the newline given to `-e`.
pub proof fn law_file_like_expr(text: Seq<u8>)
    ensures
        file_patterns(text.push(10)) == expr_patterns(text),
{
    assert(text.push(10).drop_last() =~= text);
}

} // verus!
