use vstd::prelude::*;
use vstd::utf8::decode_utf8;
use vstd::string::StringSliceAdditionalSpecFns;
use crate::text::{split_bytes, strs_bytes, push_pieces};

verus! {

#[verifier::external_type_specification]
#[verifier::external_body]
pub struct ExGlobPattern(glob::Pattern);

/// The source text that a compiled `glob::Pattern` holds (what its
/// `as_str` gives back).
pub uninterp spec fn glob_text(p: glob::Pattern) -> Seq<char>;

/// What `glob::Pattern::new` reports of a pattern it refuses: the
/// position and the message of its `PatternError`; `None` when it accepts
/// the pattern.
pub uninterp spec fn glob_syntax_error(pattern: Seq<char>) -> Option<(usize, Seq<char>)>;

/// Whether `glob::Pattern::new` accepts a pattern.
pub open spec fn glob_compiles(pattern: Seq<char>) -> bool {
    glob_syntax_error(pattern) is None
}

/// Whether `glob::Pattern::matches`, on the pattern compiled from the text
/// `pattern`, accepts `name`.
pub uninterp spec fn glob_match(pattern: Seq<char>, name: Seq<char>) -> bool;

/// Compiles a shell-style pattern with `glob::Pattern::new`, its error
/// given as the two public fields of `glob::PatternError` (`pos`, `msg`).
/// Trusted: it fails exactly with what `glob_syntax_error` names for the
/// pattern, and the compiled pattern keeps its source text (the crate
/// stores it in the field that `as_str` returns).
#[verifier::external_body]
fn compile_glob(pattern: &str) -> (r: Result<glob::Pattern, (usize, &'static str)>)
    ensures
        r matches Ok(p) ==> glob_syntax_error(pattern@) is None && glob_text(p) == pattern@,
        r matches Err(e) ==> glob_syntax_error(pattern@) == Some((e.0, e.1@)),
{
    match glob::Pattern::new(pattern) {
        Ok(p) => Ok(p),
        Err(e) => Err((e.pos, e.msg)),
    }
}

/// Matches a name against a compiled pattern with `glob::Pattern::matches`
/// (default match options).  Trusted: the result is the one that
/// `glob_match` names for the pattern's source text and the name.
#[verifier::external_body]
fn pattern_matches(p: &glob::Pattern, name: &str) -> (b: bool)
    ensures
        b == glob_match(glob_text(*p), name@),
{
    p.matches(name)
}

/// A pattern that `glob` refused.
pub struct GlobError {
    /// The pattern as it was given.
    pub pattern: String,
    /// The approximate character index of the error, as `glob` reports it.
    pub position: usize,
    /// What `glob` reports.
    pub message: &'static str,
}

/// A set of file-name globs (`--include`, `--exclude`, `--exclude-dir`).
pub struct GlobSet {
    patterns: Vec<glob::Pattern>,
}

impl View for GlobSet {
    type V = Seq<Seq<char>>;

    /// The source texts of the globs, in the order they were added.
    closed spec fn view(&self) -> Seq<Seq<char>> {
        self.patterns@.map_values(|p: glob::Pattern| glob_text(p))
    }
}

/// The globs that a run of `add` calls leaves: each pattern that `glob`
/// accepts is appended, the others are left out.
pub open spec fn after_adds(globs: Seq<Seq<char>>, patterns: Seq<Seq<char>>) -> Seq<Seq<char>>
    decreases patterns.len(),
{
    if patterns.len() == 0 {
        globs
    } else {
        after_adds(
            if glob_compiles(patterns[0]) {
                globs.push(patterns[0])
            } else {
                globs
            },
            patterns.drop_first(),
        )
    }
}

/// Whether some glob of `globs` matches `name`.
pub open spec fn any_glob_matches(globs: Seq<Seq<char>>, name: Seq<char>) -> bool {
    exists|i: int| 0 <= i < globs.len() && glob_match(#[trigger] globs[i], name)
}

impl GlobSet {
    /// An empty set.
    pub fn new() -> (r: GlobSet)
        ensures
            r@ == Seq::<Seq<char>>::empty(),
    {
        let r = GlobSet { patterns: Vec::new() };
        assert(r@ =~= Seq::<Seq<char>>::empty());
        r
    }

    /// An empty set with room for `capacity` globs.
    pub fn with_capacity(capacity: usize) -> (r: GlobSet)
        ensures
            r@ == Seq::<Seq<char>>::empty(),
    {
        let r = GlobSet { patterns: Vec::with_capacity(capacity) };
        assert(r@ =~= Seq::<Seq<char>>::empty());
        r
    }

    /// Compiles `pattern` and adds it to the set; a pattern that `glob`
    /// refuses leaves the set as it was and is reported.
    pub fn add(&mut self, pattern: &str) -> (r: Result<(), GlobError>)
        ensures
            r is Ok <==> glob_compiles(pattern@),
            r is Ok ==> final(self)@ == old(self)@.push(pattern@),
            r matches Err(e) ==> final(self)@ == old(self)@ && e.pattern@ == pattern@
                && glob_syntax_error(pattern@) == Some((e.position, e.message@)),
            final(self)@ == after_adds(old(self)@, seq![pattern@]),
    {
        match compile_glob(pattern) {
            Ok(compiled) => {
                let ghost before = self.patterns@;
                self.patterns.push(compiled);
                assert(self.patterns@ == before.push(compiled));
                assert(self@ =~= old(self)@.push(pattern@));
                assert(seq![pattern@].drop_first() =~= Seq::<Seq<char>>::empty());
                assert(after_adds(old(self)@, seq![pattern@]) == after_adds(
                    old(self)@.push(pattern@),
                    Seq::<Seq<char>>::empty(),
                ));
                Ok(())
            },
            Err((position, message)) => {
                assert(seq![pattern@].drop_first() =~= Seq::<Seq<char>>::empty());
                assert(after_adds(old(self)@, seq![pattern@]) == after_adds(
                    old(self)@,
                    Seq::<Seq<char>>::empty(),
                ));
                Err(
                    GlobError { pattern: pattern.to_owned(), position, message },
                )
            },
        }
    }

    /// Whether no glob was added.
    pub fn is_empty(&self) -> (b: bool)
        ensures
            b == (self@.len() == 0),
    {
        self.patterns.is_empty()
    }

    /// Whether some glob matches `name`; a name that is not valid UTF-8
    /// (given as `None`) matches none.
    pub fn matches(&self, name: Option<&str>) -> (b: bool)
        ensures
            b == (name is Some && any_glob_matches(self@, name->0@)),
    {
        let text = match name {
            Some(n) => n,
            None => return false,
        };
        let mut i: usize = 0;
        while i < self.patterns.len()
            invariant
                name == Some(text),
                i <= self.patterns@.len(),
                self@.len() == self.patterns@.len(),
                forall|j: int| 0 <= j < i ==> !glob_match(#[trigger] self@[j], text@),
            decreases self.patterns@.len() - i,
        {
            if pattern_matches(&self.patterns[i], text) {
                assert(self@[i as int] == glob_text(self.patterns@[i as int]));
                assert(any_glob_matches(self@, text@));
                return true;
            }
            assert(self@[i as int] == glob_text(self.patterns@[i as int]));
            i = i + 1;
        }
        false
    }
}

impl Default for GlobSet {
    fn default() -> (r: GlobSet)
        ensures
            r@ == Seq::<Seq<char>>::empty(),
    {
        GlobSet::new()
    }
}

/// A character with the Unicode `White_Space` property.
pub open spec fn is_whitespace(c: char) -> bool {
    let u = c as u32;
    ||| 9 <= u <= 13
    ||| u == 32
    ||| u == 0x85
    ||| u == 0xa0
    ||| u == 0x1680
    ||| 0x2000 <= u <= 0x200a
    ||| u == 0x2028
    ||| u == 0x2029
    ||| u == 0x202f
    ||| u == 0x205f
    ||| u == 0x3000
}

/// `s` without its leading whitespace.
pub open spec fn trim_start(s: Seq<char>) -> Seq<char>
    decreases s.len(),
{
    if s.len() > 0 && is_whitespace(s[0]) {
        trim_start(s.drop_first())
    } else {
        s
    }
}

/// `s` without its trailing whitespace.
pub open spec fn trim_end(s: Seq<char>) -> Seq<char>
    decreases s.len(),
{
    if s.len() > 0 && is_whitespace(s.last()) {
        trim_end(s.drop_last())
    } else {
        s
    }
}

/// `s` without its leading and trailing whitespace.
pub open spec fn trim_whitespace(s: Seq<char>) -> Seq<char> {
    trim_end(trim_start(s))
}

/// `str::trim`.  Trusted: std documents that it removes the leading and
/// trailing characters with the Unicode `White_Space` property, which
/// `is_whitespace` lists.
#[verifier::external_body]
fn trim(s: &str) -> (r: &str)
    ensures
        r@ == trim_whitespace(s@),
{
    s.trim()
}

/// The index of the first pattern that `glob` refuses, or the number of
/// patterns when it accepts them all.
pub open spec fn first_invalid(items: Seq<Seq<char>>) -> int
    decreases items.len(),
{
    if items.len() == 0 {
        0
    } else if !glob_compiles(items[0]) {
        0
    } else {
        1 + first_invalid(items.drop_first())
    }
}

/// The patterns are added one by one until the first that `glob` refuses,
/// which is reported; the ones before it stay added.
pub open spec fn added_until_invalid(
    before: Seq<Seq<char>>,
    after: Seq<Seq<char>>,
    items: Seq<Seq<char>>,
    r: Result<(), GlobError>,
) -> bool {
    let k = first_invalid(items);
    &&& after == before + items.take(k)
    &&& (r is Ok <==> k == items.len())
    &&& (r matches Err(e) ==> e.pattern@ == items[k] && glob_syntax_error(items[k]) == Some(
        (e.position, e.message@),
    ))
}

/// The globs of an `--exclude-from` file: its lines, trimmed of whitespace,
/// blank ones left out.
pub open spec fn line_globs(lines: Seq<Seq<u8>>) -> Seq<Seq<char>>
    decreases lines.len(),
{
    if lines.len() == 0 {
        seq![]
    } else {
        let t = trim_whitespace(decode_utf8(lines.last()));
        let init = line_globs(lines.drop_last());
        if t.len() > 0 {
            init.push(t)
        } else {
            init
        }
    }
}

/// The globs that an `--exclude-from` file with these bytes holds.
pub open spec fn exclude_file_globs(contents: Seq<u8>) -> Seq<Seq<char>> {
    line_globs(split_bytes(contents, 10))
}

/// The text of each string.
pub open spec fn strs_chars(v: Seq<&str>) -> Seq<Seq<char>> {
    v.map_values(|x: &str| x@)
}

proof fn lemma_first_invalid(items: Seq<Seq<char>>)
    ensures
        0 <= first_invalid(items) <= items.len(),
        forall|j: int| 0 <= j < first_invalid(items) ==> glob_compiles(#[trigger] items[j]),
        first_invalid(items) < items.len() ==> !glob_compiles(items[first_invalid(items)]),
    decreases items.len(),
{
    if items.len() > 0 && glob_compiles(items[0]) {
        let t = items.drop_first();
        lemma_first_invalid(t);
        assert forall|j: int| 0 <= j < first_invalid(items) implies glob_compiles(
            #[trigger] items[j],
        ) by {
            if j > 0 {
                assert(items[j] == t[j - 1]);
            }
        }
    }
}

proof fn lemma_first_invalid_unique(items: Seq<Seq<char>>, k: int)
    requires
        0 <= k <= items.len(),
        forall|j: int| 0 <= j < k ==> glob_compiles(#[trigger] items[j]),
        k < items.len() ==> !glob_compiles(items[k]),
    ensures
        first_invalid(items) == k,
    decreases items.len(),
{
    if items.len() > 0 && k > 0 {
        let t = items.drop_first();
        assert forall|j: int| 0 <= j < k - 1 implies glob_compiles(#[trigger] t[j]) by {
            assert(t[j] == items[j + 1]);
        }
        if k - 1 < t.len() {
            assert(t[k - 1] == items[k]);
        }
        assert(glob_compiles(items[0]));
        lemma_first_invalid_unique(t, k - 1);
    }
}

/// The globs of the first lines are a prefix of the globs of all lines.
proof fn lemma_line_globs_prefix(lines: Seq<Seq<u8>>, m: int)
    requires
        0 <= m <= lines.len(),
    ensures
        line_globs(lines.take(m)).len() <= line_globs(lines).len(),
        line_globs(lines) .take(line_globs(lines.take(m)).len() as int) == line_globs(lines.take(m)),
    decreases lines.len(),
{
    if m == lines.len() {
        assert(lines.take(m) =~= lines);
        assert(line_globs(lines).take(line_globs(lines).len() as int) =~= line_globs(lines));
    } else {
        let init = lines.drop_last();
        assert(init.take(m) =~= lines.take(m));
        lemma_line_globs_prefix(init, m);
        let a = line_globs(lines.take(m));
        assert(line_globs(lines).take(a.len() as int) =~= line_globs(init).take(a.len() as int));
    }
}

impl GlobSet {
    /// Adds the patterns one by one, stopping at the first that `glob`
    /// refuses.
    pub fn add_patterns(&mut self, patterns: &[&str]) -> (r: Result<(), GlobError>)
        ensures
            added_until_invalid(old(self)@, final(self)@, strs_chars(patterns@), r),
    {
        let ghost items = strs_chars(patterns@);
        let mut i: usize = 0;
        while i < patterns.len()
            invariant
                i <= patterns@.len(),
                items == strs_chars(patterns@),
                self@ == old(self)@ + items.take(i as int),
                forall|j: int| 0 <= j < i ==> glob_compiles(#[trigger] items[j]),
            decreases patterns@.len() - i,
        {
            let ghost before = self@;
            match self.add(patterns[i]) {
                Ok(()) => {},
                Err(e) => {
                    proof {
                        lemma_first_invalid_unique(items, i as int);
                    }
                    return Err(e);
                },
            }
            assert(items.take(i + 1) =~= items.take(i as int).push(items[i as int]));
            i = i + 1;
        }
        proof {
            lemma_first_invalid_unique(items, i as int);
            assert(items.take(i as int) =~= items);
        }
        Ok(())
    }

    /// Adds the globs of an `--exclude-from` file with these contents: each
    /// line trimmed of whitespace, blank lines skipped, stopping at the first
    /// glob that `glob` refuses.
    pub fn add_pattern_lines(&mut self, contents: &str) -> (r: Result<(), GlobError>)
        ensures
            added_until_invalid(
                old(self)@,
                final(self)@,
                exclude_file_globs(contents.spec_bytes()),
                r,
            ),
    {
        let mut lines: Vec<&str> = Vec::new();
        push_pieces(&mut lines, contents, 10);
        let ghost ls = strs_bytes(lines@);
        assert(ls =~= split_bytes(contents.spec_bytes(), 10));
        let ghost items = exclude_file_globs(contents.spec_bytes());
        let mut i: usize = 0;
        while i < lines.len()
            invariant
                i <= lines@.len(),
                ls == strs_bytes(lines@),
                items == line_globs(ls),
                items == exclude_file_globs(contents.spec_bytes()),
                self@ == old(self)@ + line_globs(ls.take(i as int)),
                forall|j: int|
                    0 <= j < line_globs(ls.take(i as int)).len() ==> glob_compiles(
                        #[trigger] line_globs(ls.take(i as int))[j],
                    ),
            decreases lines@.len() - i,
        {
            let line = lines[i];
            let t = trim(line);
            let ghost prev = line_globs(ls.take(i as int));
            proof {
                vstd::utf8::encode_utf8_decode_utf8(line@);
                assert(ls[i as int] == line.spec_bytes());
                assert(decode_utf8(ls[i as int]) == line@);
                assert(ls.take(i + 1).drop_last() =~= ls.take(i as int));
                assert(ls.take(i + 1).last() == ls[i as int]);
                lemma_line_globs_prefix(ls, i + 1);
            }
            if !t.is_empty() {
                assert(line_globs(ls.take(i + 1)) == prev.push(t@));
                match self.add(t) {
                    Ok(()) => {},
                    Err(e) => {
                        proof {
                            assert(items.take(prev.len() as int + 1) == prev.push(t@));
                            assert(items.take(prev.len() as int + 1)[prev.len() as int]
                                == items[prev.len() as int]);
                            assert(items[prev.len() as int] == t@);
                            assert forall|j: int| 0 <= j < prev.len() implies glob_compiles(
                                #[trigger] items[j],
                            ) by {
                                assert(items[j] == items.take(prev.len() as int + 1)[j]);
                            }
                            lemma_first_invalid_unique(items, prev.len() as int);
                            assert(items.take(prev.len() as int) =~= prev);
                        }
                        return Err(e);
                    },
                }
            } else {
                assert(line_globs(ls.take(i + 1)) == prev);
            }
            i = i + 1;
        }
        proof {
            assert(ls.take(i as int) =~= ls);
            lemma_first_invalid_unique(items, items.len() as int);
            assert(items.take(items.len() as int) =~= items);
        }
        Ok(())
    }
}

/// A set holding the given globs, or the first that `glob` refuses.
pub fn globs_from(patterns: &[&str]) -> (r: Result<GlobSet, GlobError>)
    ensures
        r is Ok <==> first_invalid(strs_chars(patterns@)) == patterns@.len(),
        r matches Ok(g) ==> g@ == strs_chars(patterns@),
        r matches Err(e) ==> e.pattern@ == strs_chars(patterns@)[first_invalid(
            strs_chars(patterns@),
        )] && glob_syntax_error(e.pattern@) == Some((e.position, e.message@)),
{
    let mut set = GlobSet::with_capacity(patterns.len());
    match set.add_patterns(patterns) {
        Ok(()) => {
            assert(strs_chars(patterns@).take(patterns@.len() as int) =~= strs_chars(patterns@));
            assert(set@ =~= strs_chars(patterns@));
            Ok(set)
        },
        Err(e) => Err(e),
    }
}

/// A name matches a set of globs exactly when it matches one of them, so
/// adding a glob adds the names it matches and keeps the others.
pub proof fn law_add_then_match(globs: Seq<Seq<char>>, glob: Seq<char>, name: Seq<char>)
    ensures
        any_glob_matches(globs.push(glob), name) <==> (any_glob_matches(globs, name) || glob_match(
            glob,
            name,
        )),
{
    let g = globs.push(glob);
    if any_glob_matches(globs, name) {
        let i = choose|i: int| 0 <= i < globs.len() && glob_match(#[trigger] globs[i], name);
        assert(g[i] == globs[i]);
    }
    if glob_match(glob, name) {
        assert(g[globs.len() as int] == glob);
    }
    if any_glob_matches(g, name) {
        let i = choose|i: int| 0 <= i < g.len() && glob_match(#[trigger] g[i], name);
        if i < globs.len() {
            assert(g[i] == globs[i]);
        }
    }
}

/// A set that starts empty stays empty through a run of `add` calls
/// exactly when none of them succeeds (`glob` accepts none of the
/// patterns).
pub proof fn law_empty_iff_no_add_succeeded(globs: Seq<Seq<char>>, patterns: Seq<Seq<char>>)
    ensures
        after_adds(globs, patterns).len() == 0 <==> (globs.len() == 0 && forall|i: int|
            0 <= i < patterns.len() ==> !glob_compiles(#[trigger] patterns[i])),
    decreases patterns.len(),
{
    if patterns.len() > 0 {
        let g1 = if glob_compiles(patterns[0]) {
            globs.push(patterns[0])
        } else {
            globs
        };
        let rest = patterns.drop_first();
        law_empty_iff_no_add_succeeded(g1, rest);
        if (forall|i: int| 0 <= i < rest.len() ==> !glob_compiles(#[trigger] rest[i])) && !glob_compiles(patterns[0]) {
            assert forall|i: int| 0 <= i < patterns.len() implies !glob_compiles(#[trigger] patterns[i]) by {
                if i > 0 {
                    assert(patterns[i] == rest[i - 1]);
                }
            }
        }
        if forall|i: int| 0 <= i < patterns.len() ==> !glob_compiles(#[trigger] patterns[i]) {
            assert(!glob_compiles(patterns[0]));
            assert forall|i: int| 0 <= i < rest.len() implies !glob_compiles(#[trigger] rest[i]) by {
                assert(rest[i] == patterns[i + 1]);
            }
        }
    }
}

} // verus!
