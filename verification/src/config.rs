use vstd::prelude::*;
use vstd::string::StringSliceAdditionalSpecFns;
use crate::color::ColorConfig;
use crate::globset::GlobSet;
use crate::modes::{BinaryMode, ColorMode, DeviceMode, DirectoryMode, RegexMode, regex_mode};
use crate::text::str_equals;

verus! {

// ---------------------------------------------------------------------------
// Words that option values are compared with
// ---------------------------------------------------------------------------

pub open spec fn word_skip() -> Seq<u8> {
    seq![115u8, 107, 105, 112]
}

pub open spec fn word_recurse() -> Seq<u8> {
    seq![114u8, 101, 99, 117, 114, 115, 101]
}

pub open spec fn word_read() -> Seq<u8> {
    seq![114u8, 101, 97, 100]
}

pub open spec fn word_text() -> Seq<u8> {
    seq![116u8, 101, 120, 116]
}

pub open spec fn word_without_match() -> Seq<u8> {
    seq![119u8, 105, 116, 104, 111, 117, 116, 45, 109, 97, 116, 99, 104]
}

pub open spec fn word_always() -> Seq<u8> {
    seq![97u8, 108, 119, 97, 121, 115]
}

pub open spec fn word_never() -> Seq<u8> {
    seq![110u8, 101, 118, 101, 114]
}

/// The bytes of an optional string.
pub open spec fn opt_bytes(s: Option<&str>) -> Option<Seq<u8>> {
    match s {
        Some(x) => Some(x.spec_bytes()),
        None => None,
    }
}

/// Whether an optional value is the given word.
fn is_word(s: Option<&str>, word: &[u8]) -> (b: bool)
    ensures
        b == (opt_bytes(s) == Some(word@)),
{
    match s {
        Some(x) => str_equals(x, word),
        None => false,
    }
}

// ---------------------------------------------------------------------------
// Decoding single options
// ---------------------------------------------------------------------------

pub open spec fn spec_directory_mode(
    recursive: bool,
    dereference_recursive: bool,
    directories: Option<Seq<u8>>,
) -> DirectoryMode {
    if recursive || dereference_recursive {
        DirectoryMode::Recurse
    } else if directories == Some(word_skip()) {
        DirectoryMode::Skip
    } else if directories == Some(word_recurse()) {
        DirectoryMode::Recurse
    } else {
        DirectoryMode::Read
    }
}

/// `-r` and `-R` recurse; otherwise `--directories=skip|recurse|read`,
/// reading by default.
pub fn directory_mode(recursive: bool, dereference_recursive: bool, directories: Option<&str>) -> (m:
    DirectoryMode)
    ensures
        m == spec_directory_mode(recursive, dereference_recursive, opt_bytes(directories)),
{
    let skip: [u8; 4] = [115, 107, 105, 112];
    let recurse: [u8; 7] = [114, 101, 99, 117, 114, 115, 101];
    assert(skip@ =~= word_skip());
    assert(recurse@ =~= word_recurse());
    if recursive || dereference_recursive {
        DirectoryMode::Recurse
    } else if is_word(directories, skip.as_slice()) {
        DirectoryMode::Skip
    } else if is_word(directories, recurse.as_slice()) {
        DirectoryMode::Recurse
    } else {
        DirectoryMode::Read
    }
}

pub open spec fn spec_binary_mode(text: bool, skip_binary: bool, binary_files: Option<Seq<u8>>) -> BinaryMode {
    if text {
        BinaryMode::Text
    } else if skip_binary {
        BinaryMode::WithoutMatch
    } else if binary_files == Some(word_text()) {
        BinaryMode::Text
    } else if binary_files == Some(word_without_match()) {
        BinaryMode::WithoutMatch
    } else {
        BinaryMode::Binary
    }
}

/// `-a` reads binary files as text, `-I` skips them; otherwise
/// `--binary-files=text|without-match|binary`, `binary` by default.
pub fn binary_mode(text: bool, skip_binary: bool, binary_files: Option<&str>) -> (m: BinaryMode)
    ensures
        m == spec_binary_mode(text, skip_binary, opt_bytes(binary_files)),
{
    let text_word: [u8; 4] = [116, 101, 120, 116];
    let without_match: [u8; 13] = [119, 105, 116, 104, 111, 117, 116, 45, 109, 97, 116, 99, 104];
    assert(text_word@ =~= word_text());
    assert(without_match@ =~= word_without_match());
    if text {
        BinaryMode::Text
    } else if skip_binary {
        BinaryMode::WithoutMatch
    } else if is_word(binary_files, text_word.as_slice()) {
        BinaryMode::Text
    } else if is_word(binary_files, without_match.as_slice()) {
        BinaryMode::WithoutMatch
    } else {
        BinaryMode::Binary
    }
}

pub open spec fn spec_device_mode(devices: Option<Seq<u8>>) -> DeviceMode {
    if devices == Some(word_read()) {
        DeviceMode::Read
    } else if devices == Some(word_skip()) {
        DeviceMode::Skip
    } else {
        DeviceMode::Default
    }
}

/// `--devices=read|skip`, or the default handling.
pub fn device_mode(devices: Option<&str>) -> (m: DeviceMode)
    ensures
        m == spec_device_mode(opt_bytes(devices)),
{
    let read: [u8; 4] = [114, 101, 97, 100];
    let skip: [u8; 4] = [115, 107, 105, 112];
    assert(read@ =~= word_read());
    assert(skip@ =~= word_skip());
    if is_word(devices, read.as_slice()) {
        DeviceMode::Read
    } else if is_word(devices, skip.as_slice()) {
        DeviceMode::Skip
    } else {
        DeviceMode::Default
    }
}

pub open spec fn spec_color_mode(color: Option<Seq<u8>>) -> ColorMode {
    if color == Some(word_always()) {
        ColorMode::Always
    } else if color == Some(word_never()) {
        ColorMode::Never
    } else {
        ColorMode::Auto
    }
}

/// `--color=always|never|auto`; anything else, or no `--color`, is `auto`.
pub fn color_mode(color: Option<&str>) -> (m: ColorMode)
    ensures
        m == spec_color_mode(opt_bytes(color)),
{
    let always: [u8; 6] = [97, 108, 119, 97, 121, 115];
    let never: [u8; 5] = [110, 101, 118, 101, 114];
    assert(always@ =~= word_always());
    assert(never@ =~= word_never());
    if is_word(color, always.as_slice()) {
        ColorMode::Always
    } else if is_word(color, never.as_slice()) {
        ColorMode::Never
    } else {
        ColorMode::Auto
    }
}

/// Colors are used when asked for, and in `auto` mode when standard output
/// is a terminal.
pub fn use_color(mode: ColorMode, stdout_is_terminal: bool) -> (b: bool)
    ensures
        b == match mode {
            ColorMode::Always => true,
            ColorMode::Never => false,
            ColorMode::Auto => stdout_is_terminal,
        },
{
    match mode {
        ColorMode::Always => true,
        ColorMode::Never => false,
        ColorMode::Auto => stdout_is_terminal,
    }
}

/// `GREP_COLOR` is deprecated: a warning is due when it is set and colors
/// are in use.
pub fn warn_deprecated_grep_color(use_color: bool, grep_color: &str) -> (b: bool)
    ensures
        b == (use_color && grep_color@.len() != 0),
{
    use_color && !grep_color.is_empty()
}

pub open spec fn unwrap_or_usize(o: Option<usize>, d: usize) -> usize {
    match o {
        Some(v) => v,
        None => d,
    }
}

/// The lines of leading and trailing context, and whether any context was
/// asked for: `-o` overrides every context option; `-A` and `-B` override
/// `-C` on their side.
pub open spec fn spec_context(
    only_matching: bool,
    before: Option<usize>,
    after: Option<usize>,
    context: Option<usize>,
) -> (usize, usize, bool) {
    if only_matching {
        (0, 0, false)
    } else {
        let fallback = unwrap_or_usize(context, 0);
        (
            unwrap_or_usize(before, fallback),
            unwrap_or_usize(after, fallback),
            context is Some || before is Some || after is Some,
        )
    }
}

pub fn context_lines(
    only_matching: bool,
    before: Option<usize>,
    after: Option<usize>,
    context: Option<usize>,
) -> (r: (usize, usize, bool))
    ensures
        r == spec_context(only_matching, before, after, context),
{
    if only_matching {
        (0, 0, false)
    } else {
        let fallback = match context {
            Some(c) => c,
            None => 0,
        };
        let b = match before {
            Some(v) => v,
            None => fallback,
        };
        let a = match after {
            Some(v) => v,
            None => fallback,
        };
        (b, a, context.is_some() || before.is_some() || after.is_some())
    }
}

/// The operand `-`, standard input.
pub open spec fn is_dash(a: Seq<u8>) -> bool {
    a == seq![45u8]
}

pub open spec fn spec_show_filename(
    with_filename: bool,
    no_filename: bool,
    files: Seq<Seq<u8>>,
    first_is_dir: bool,
    mode: DirectoryMode,
) -> bool {
    if with_filename {
        true
    } else if no_filename {
        false
    } else if files.len() == 0 {
        mode == DirectoryMode::Recurse
    } else if files.len() == 1 {
        !is_dash(files[0]) && mode == DirectoryMode::Recurse && first_is_dir
    } else {
        true
    }
}

/// Whether output lines carry the file name: `-H` and `-h` decide when
/// given; otherwise with two or more files, or when recursing into the
/// working directory or into the one directory operand.  `files` are the
/// file operands as bytes; `first_is_dir` says whether the first names a
/// directory.
pub fn show_filename(
    with_filename: bool,
    no_filename: bool,
    files: &[Vec<u8>],
    first_is_dir: bool,
    mode: DirectoryMode,
) -> (b: bool)
    ensures
        b == spec_show_filename(with_filename, no_filename, files.deep_view(), first_is_dir, mode),
{
    if with_filename {
        true
    } else if no_filename {
        false
    } else if files.len() == 0 {
        mode == DirectoryMode::Recurse
    } else if files.len() == 1 {
        let dash = files[0].len() == 1 && files[0][0] == 45;
        assert(files.deep_view()[0] == files@[0]@) by {
            assert(files@[0].deep_view() =~= files@[0]@);
        }
        assert(dash == is_dash(files.deep_view()[0])) by {
            if is_dash(files.deep_view()[0]) {
                assert(files@[0]@.len() == 1);
            }
            if dash {
                assert(files@[0]@ =~= seq![45u8]);
            }
        }
        !dash && mode == DirectoryMode::Recurse && first_is_dir
    } else {
        true
    }
}

/// With `-e` or `-f` every operand is a file; otherwise the first operand
/// is the pattern and the rest are files.  The index of the first file
/// operand.
pub fn first_file_operand(has_explicit_patterns: bool, n_operands: usize) -> (k: usize)
    ensures
        k == (if has_explicit_patterns || n_operands == 0 {
            0usize
        } else {
            1usize
        }),
{
    if has_explicit_patterns || n_operands == 0 {
        0
    } else {
        1
    }
}

/// Whether patterns were given with `-e` or `-f`.
pub fn has_explicit_patterns(n_regexp: usize, n_pattern_files: usize) -> (b: bool)
    ensures
        b == (n_regexp != 0 || n_pattern_files != 0),
{
    n_regexp != 0 || n_pattern_files != 0
}

/// The index of the operand that is the pattern: the first one, unless
/// `-e` or `-f` gave the patterns.
pub fn pattern_operand(has_explicit_patterns: bool, n_operands: usize) -> (k: Option<usize>)
    ensures
        k == (if has_explicit_patterns || n_operands == 0 {
            None::<usize>
        } else {
            Some(0usize)
        }),
{
    if has_explicit_patterns || n_operands == 0 {
        None
    } else {
        Some(0)
    }
}

/// grep stops with status 1 before reading any input when `-m 0` is given,
/// or when `-v` is given with an empty pattern (which matches every line,
/// so no line is selected).
pub fn exits_without_search(max_count: Option<u64>, invert_match: bool, patterns: &[&str]) -> (b:
    bool)
    ensures
        b == (max_count == Some(0u64) || (invert_match && exists|i: int|
            0 <= i < patterns@.len() && (#[trigger] patterns@[i])@.len() == 0)),
{
    let zero = match max_count {
        Some(m) => m == 0,
        None => false,
    };
    zero || (invert_match && crate::patterns::has_empty_pattern(patterns))
}

// ---------------------------------------------------------------------------
// The configuration
// ---------------------------------------------------------------------------

/// The options as given on the command line, before decoding.
pub struct Options<'a> {
    pub extended_regexp: bool,
    pub fixed_strings: bool,
    pub basic_regexp: bool,
    pub perl_regexp: bool,
    pub ignore_case: bool,
    pub word_regexp: bool,
    pub line_regexp: bool,
    pub null_data: bool,
    pub no_messages: bool,
    pub invert_match: bool,
    pub max_count: Option<u64>,
    pub byte_offset: bool,
    pub line_number: bool,
    pub line_buffered: bool,
    pub with_filename: bool,
    pub no_filename: bool,
    pub label: Option<&'a str>,
    pub only_matching: bool,
    pub quiet: bool,
    pub binary_files: Option<&'a str>,
    pub text: bool,
    pub skip_binary: bool,
    pub directories: Option<&'a str>,
    pub devices: Option<&'a str>,
    pub recursive: bool,
    pub dereference_recursive: bool,
    pub files_without_match: bool,
    pub files_with_matches: bool,
    pub count: bool,
    pub initial_tab: bool,
    pub null: bool,
    pub before_context: Option<usize>,
    pub after_context: Option<usize>,
    pub context: Option<usize>,
    pub group_separator: Option<&'a str>,
    pub no_group_separator: bool,
    pub color: Option<&'a str>,
    /// `-U`: keep carriage returns at the ends of lines.
    pub binary: bool,
}

/// What the searcher, the matcher and the output need to know.
pub struct Config<'a> {
    // Searcher
    pub directory_mode: DirectoryMode,
    pub device_mode: DeviceMode,
    pub follow_symlinks: bool,
    pub include_globs: GlobSet,
    pub exclude_globs: GlobSet,
    pub exclude_dir_globs: GlobSet,
    pub label: &'a str,
    /// Strip a carriage return before each line end; only done on Windows.
    pub strip_cr: bool,
    pub binary_mode: BinaryMode,
    pub max_count: Option<u64>,
    pub before_context: usize,
    pub after_context: usize,
    pub has_context: bool,
    // Matcher
    pub patterns: &'a [&'a str],
    pub regex_mode: RegexMode,
    pub ignore_case: bool,
    pub invert_match: bool,
    pub word_regexp: bool,
    pub line_regexp: bool,
    // Output
    pub quiet: bool,
    pub count: bool,
    pub show_filename: bool,
    pub files_with_matches: bool,
    pub files_without_match: bool,
    pub only_matching: bool,
    pub byte_offset: bool,
    pub line_number: bool,
    pub initial_tab: bool,
    pub null_separator: bool,
    pub null_data: bool,
    pub line_buffered: bool,
    pub no_messages: bool,
    pub group_separator: Option<&'a str>,
    pub use_color: bool,
    pub color_config: ColorConfig<'a>,
}

/// The label of standard input: `--label`, or `(standard input)`.
pub open spec fn spec_label<'a>(label: Option<&'a str>) -> &'a str {
    match label {
        Some(l) => l,
        None => "(standard input)",
    }
}

/// The separator between groups of context lines: `--group-separator`
/// (`--` when not given), or none with `--no-group-separator`.
pub open spec fn spec_group_separator<'a>(
    group_separator: Option<&'a str>,
    no_group_separator: bool,
) -> Option<&'a str> {
    if no_group_separator {
        None
    } else {
        match group_separator {
            Some(s) => Some(s),
            None => Some("--"),
        }
    }
}

/// Decodes the options into the configuration.  The globs and the color
/// configuration are built beforehand, `files` are the file operands (as
/// bytes), `first_is_dir` says whether the first of them names a
/// directory, `stdout_is_terminal` whether standard output is one, and
/// `windows` whether grep runs on Windows.
pub fn build_config<'a>(
    opts: &Options<'a>,
    patterns: &'a [&'a str],
    include_globs: GlobSet,
    exclude_globs: GlobSet,
    exclude_dir_globs: GlobSet,
    color_config: ColorConfig<'a>,
    files: &[Vec<u8>],
    first_is_dir: bool,
    stdout_is_terminal: bool,
    windows: bool,
) -> (c: Config<'a>)
    ensures
        c.directory_mode == spec_directory_mode(
            opts.recursive,
            opts.dereference_recursive,
            opt_bytes(opts.directories),
        ),
        c.device_mode == spec_device_mode(opt_bytes(opts.devices)),
        c.follow_symlinks == opts.dereference_recursive,
        c.include_globs@ == include_globs@,
        c.exclude_globs@ == exclude_globs@,
        c.exclude_dir_globs@ == exclude_dir_globs@,
        c.label == spec_label(opts.label),
        c.strip_cr == (windows && !opts.binary),
        c.binary_mode == spec_binary_mode(opts.text, opts.skip_binary, opt_bytes(opts.binary_files)),
        c.max_count == opts.max_count,
        (c.before_context, c.after_context, c.has_context) == spec_context(
            opts.only_matching,
            opts.before_context,
            opts.after_context,
            opts.context,
        ),
        c.patterns == patterns,
        c.regex_mode == (if opts.fixed_strings {
            RegexMode::Fixed
        } else if opts.extended_regexp {
            RegexMode::Extended
        } else if opts.perl_regexp {
            RegexMode::Perl
        } else {
            RegexMode::Basic
        }),
        c.ignore_case == opts.ignore_case,
        c.invert_match == opts.invert_match,
        c.word_regexp == opts.word_regexp,
        c.line_regexp == opts.line_regexp,
        c.quiet == opts.quiet,
        c.count == opts.count,
        c.show_filename == spec_show_filename(
            opts.with_filename,
            opts.no_filename,
            files.deep_view(),
            first_is_dir,
            c.directory_mode,
        ),
        c.files_with_matches == opts.files_with_matches,
        c.files_without_match == opts.files_without_match,
        c.only_matching == opts.only_matching,
        c.byte_offset == opts.byte_offset,
        c.line_number == opts.line_number,
        c.initial_tab == opts.initial_tab,
        c.null_separator == opts.null,
        c.null_data == opts.null_data,
        c.line_buffered == opts.line_buffered,
        c.no_messages == opts.no_messages,
        c.group_separator == spec_group_separator(opts.group_separator, opts.no_group_separator),
        c.use_color == match spec_color_mode(opt_bytes(opts.color)) {
            ColorMode::Always => true,
            ColorMode::Never => false,
            ColorMode::Auto => stdout_is_terminal,
        },
        c.color_config@ == color_config@,
{
    let regex_mode = regex_mode(opts.fixed_strings, opts.extended_regexp, opts.perl_regexp);
    let directory_mode = directory_mode(
        opts.recursive,
        opts.dereference_recursive,
        opts.directories,
    );
    let binary_mode = binary_mode(opts.text, opts.skip_binary, opts.binary_files);
    let device_mode = device_mode(opts.devices);
    let color = color_mode(opts.color);
    let (before_context, after_context, has_context) = context_lines(
        opts.only_matching,
        opts.before_context,
        opts.after_context,
        opts.context,
    );
    let show_filename = show_filename(
        opts.with_filename,
        opts.no_filename,
        files,
        first_is_dir,
        directory_mode,
    );
    let label = match opts.label {
        Some(l) => l,
        None => "(standard input)",
    };
    let group_separator = if opts.no_group_separator {
        None
    } else {
        match opts.group_separator {
            Some(s) => Some(s),
            None => Some("--"),
        }
    };
    let use_color = use_color(color, stdout_is_terminal);
    Config {
        directory_mode,
        device_mode,
        follow_symlinks: opts.dereference_recursive,
        include_globs,
        exclude_globs,
        exclude_dir_globs,
        label,
        strip_cr: windows && !opts.binary,
        binary_mode,
        max_count: opts.max_count,
        before_context,
        after_context,
        has_context,
        patterns,
        regex_mode,
        ignore_case: opts.ignore_case,
        invert_match: opts.invert_match,
        word_regexp: opts.word_regexp,
        line_regexp: opts.line_regexp,
        quiet: opts.quiet,
        count: opts.count,
        show_filename,
        files_with_matches: opts.files_with_matches,
        files_without_match: opts.files_without_match,
        only_matching: opts.only_matching,
        byte_offset: opts.byte_offset,
        line_number: opts.line_number,
        initial_tab: opts.initial_tab,
        null_separator: opts.null,
        null_data: opts.null_data,
        line_buffered: opts.line_buffered,
        no_messages: opts.no_messages,
        group_separator,
        use_color,
        color_config,
    }
}

// ---------------------------------------------------------------------------
// What to read
// ---------------------------------------------------------------------------

/// One input to search.
#[derive(Clone, Copy, PartialEq, Eq, Debug, Structural)]
pub enum Input {
    /// Standard input.
    Stdin,
    /// The working directory, searched recursively.
    WorkingDirectory,
    /// The file operand with this index.
    Operand(usize),
}

pub open spec fn spec_inputs(files: Seq<Seq<u8>>, mode: DirectoryMode) -> Seq<Input> {
    if files.len() == 0 {
        if mode == DirectoryMode::Recurse {
            seq![Input::WorkingDirectory]
        } else {
            seq![Input::Stdin]
        }
    } else {
        Seq::new(
            files.len(),
            |i: int|
                if is_dash(files[i]) {
                    Input::Stdin
                } else {
                    Input::Operand(i as usize)
                },
        )
    }
}

/// The inputs in the order they are searched: the file operands, `-`
/// standing for standard input; with none, standard input, or the working
/// directory when recursing.
pub fn inputs(files: &[Vec<u8>], mode: DirectoryMode) -> (r: Vec<Input>)
    ensures
        r@ == spec_inputs(files.deep_view(), mode),
{
    let mut r: Vec<Input> = Vec::new();
    if files.len() == 0 {
        if mode == DirectoryMode::Recurse {
            r.push(Input::WorkingDirectory);
        } else {
            r.push(Input::Stdin);
        }
        assert(r@ =~= spec_inputs(files.deep_view(), mode));
        return r;
    }
    let ghost target = spec_inputs(files.deep_view(), mode);
    let mut i: usize = 0;
    while i < files.len()
        invariant
            i <= files@.len(),
            files@.len() > 0,
            target == spec_inputs(files.deep_view(), mode),
            r@ == target.take(i as int),
        decreases files@.len() - i,
    {
        let dash = files[i].len() == 1 && files[i][0] == 45;
        assert(files.deep_view()[i as int] == files@[i as int]@) by {
            assert(files@[i as int].deep_view() =~= files@[i as int]@);
        }
        assert(dash == is_dash(files.deep_view()[i as int])) by {
            if dash {
                assert(files@[i as int]@ =~= seq![45u8]);
            }
        }
        if dash {
            r.push(Input::Stdin);
        } else {
            r.push(Input::Operand(i));
        }
        assert(r@ =~= target.take(i + 1));
        i = i + 1;
    }
    assert(target.take(i as int) =~= target);
    r
}

/// The byte that ends a line: NUL with `-z`, newline otherwise.
pub fn line_terminator(null_data: bool) -> (b: u8)
    ensures
        b == (if null_data {
            0u8
        } else {
            10u8
        }),
{
    if null_data {
        0
    } else {
        10
    }
}

// ---------------------------------------------------------------------------
// Laws
// ---------------------------------------------------------------------------

/// Without `-o`, an explicit `-B N` gives exactly `N` lines of leading
/// context and an explicit `-A N` exactly `N` lines of trailing context,
/// whatever `-C` says; `-C N` fills only the sides not given; `-o` gives
/// no context at all; and context is asked for exactly when one of the
/// three options is given.
pub proof fn law_context_sides(
    only_matching: bool,
    before: Option<usize>,
    after: Option<usize>,
    context: Option<usize>,
)
    ensures
        !only_matching && before is Some ==> spec_context(only_matching, before, after, context).0
            == before->0,
        !only_matching && after is Some ==> spec_context(only_matching, before, after, context).1
            == after->0,
        !only_matching && before is None && context is Some ==> spec_context(
            only_matching,
            before,
            after,
            context,
        ).0 == context->0,
        !only_matching && after is None && context is Some ==> spec_context(
            only_matching,
            before,
            after,
            context,
        ).1 == context->0,
        !only_matching && before is None && context is None ==> spec_context(
            only_matching,
            before,
            after,
            context,
        ).0 == 0,
        !only_matching && after is None && context is None ==> spec_context(
            only_matching,
            before,
            after,
            context,
        ).1 == 0,
        only_matching ==> spec_context(only_matching, before, after, context) == (0usize, 0usize, false),
        !only_matching ==> (spec_context(only_matching, before, after, context).2 <==> (
        before is Some || after is Some || context is Some)),
{
}

/// `-H` always prints file names; `-h` without `-H` never does, whatever
/// the operands and the directory mode.  Without either, two or more
/// operands print them, and no operand prints them only when recursing.
pub proof fn law_file_name_flags(
    with_filename: bool,
    no_filename: bool,
    files: Seq<Seq<u8>>,
    first_is_dir: bool,
    mode: DirectoryMode,
)
    ensures
        with_filename ==> spec_show_filename(with_filename, no_filename, files, first_is_dir, mode),
        !with_filename && no_filename ==> !spec_show_filename(
            with_filename,
            no_filename,
            files,
            first_is_dir,
            mode,
        ),
        !with_filename && !no_filename && files.len() >= 2 ==> spec_show_filename(
            with_filename,
            no_filename,
            files,
            first_is_dir,
            mode,
        ),
        !with_filename && !no_filename && files.len() == 0 ==> (spec_show_filename(
            with_filename,
            no_filename,
            files,
            first_is_dir,
            mode,
        ) <==> mode == DirectoryMode::Recurse),
        !with_filename && !no_filename && files.len() == 1 && files[0] == seq![45u8] ==> !spec_show_filename(
            with_filename,
            no_filename,
            files,
            first_is_dir,
            mode,
        ),
{
}

/// With no file operand, `-r` searches the working directory and nothing
/// else, and otherwise standard input alone is read; with operands there
/// is one input per operand, in order, `-` standing for standard input.
pub proof fn law_inputs(files: Seq<Seq<u8>>, mode: DirectoryMode)
    ensures
        files.len() == 0 && mode == DirectoryMode::Recurse ==> spec_inputs(files, mode) == seq![
            Input::WorkingDirectory,
        ],
        files.len() == 0 && mode != DirectoryMode::Recurse ==> spec_inputs(files, mode) == seq![
            Input::Stdin,
        ],
        files.len() > 0 ==> spec_inputs(files, mode).len() == files.len(),
        forall|i: int|
            0 <= i < files.len() ==> #[trigger] spec_inputs(files, mode)[i] == if files[i] == seq![
                45u8,
            ] {
                Input::Stdin
            } else {
                Input::Operand(i as usize)
            },
        forall|i: int|
            0 <= i < spec_inputs(files, mode).len() ==> #[trigger] spec_inputs(files, mode)[i]
                != Input::WorkingDirectory || (files.len() == 0 && mode == DirectoryMode::Recurse),
{
}

} // verus!
