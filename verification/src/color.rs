use vstd::prelude::*;
use crate::text::{split_bytes, index_of, lemma_index_of, lemma_index_of_unique, find_byte, split_around, byte_len};
use vstd::string::StringSliceAdditionalSpecFns;

verus! {

broadcast use vstd::string::group_string_axioms;

/// The SGR sequences used to color each part of the output, and the two
/// boolean capabilities of `GREP_COLORS`.
pub struct ColorConfig<'a> {
    pub matched_selected: &'a str,
    pub matched_context: &'a str,
    pub filename: &'a str,
    pub line_number: &'a str,
    pub byte_offset: &'a str,
    pub separator: &'a str,
    pub selected_line: &'a str,
    pub context_line: &'a str,
    pub reverse_video: bool,
    pub no_erase: bool,
}

/// A color configuration as the UTF-8 bytes of each capability.
pub struct ColorSpec {
    pub matched_selected: Seq<u8>,
    pub matched_context: Seq<u8>,
    pub filename: Seq<u8>,
    pub line_number: Seq<u8>,
    pub byte_offset: Seq<u8>,
    pub separator: Seq<u8>,
    pub selected_line: Seq<u8>,
    pub context_line: Seq<u8>,
    pub reverse_video: bool,
    pub no_erase: bool,
}

impl<'a> View for ColorConfig<'a> {
    type V = ColorSpec;

    open spec fn view(&self) -> ColorSpec {
        ColorSpec {
            matched_selected: self.matched_selected.spec_bytes(),
            matched_context: self.matched_context.spec_bytes(),
            filename: self.filename.spec_bytes(),
            line_number: self.line_number.spec_bytes(),
            byte_offset: self.byte_offset.spec_bytes(),
            separator: self.separator.spec_bytes(),
            selected_line: self.selected_line.spec_bytes(),
            context_line: self.context_line.spec_bytes(),
            reverse_video: self.reverse_video,
            no_erase: self.no_erase,
        }
    }
}

/// GNU grep's default colors: `ms=01;31:mc=01;31:fn=35:ln=32:bn=32:se=36`,
/// with no color for whole selected or context lines.
pub open spec fn default_colors() -> ColorSpec {
    ColorSpec {
        matched_selected: seq![48u8, 49, 59, 51, 49],
        matched_context: seq![48u8, 49, 59, 51, 49],
        filename: seq![51u8, 53],
        line_number: seq![51u8, 50],
        byte_offset: seq![51u8, 50],
        separator: seq![51u8, 54],
        selected_line: seq![],
        context_line: seq![],
        reverse_video: false,
        no_erase: false,
    }
}

/// A non-empty `GREP_COLOR` sets the color of matched text in any line.
pub open spec fn apply_grep_color(c: ColorSpec, grep_color: Seq<u8>) -> ColorSpec {
    if grep_color.len() == 0 {
        c
    } else {
        ColorSpec { matched_selected: grep_color, matched_context: grep_color, ..c }
    }
}

/// The two-byte key `c0 c1`.
pub open spec fn key2(c0: u8, c1: u8) -> Seq<u8> {
    seq![c0, c1]
}

/// One `GREP_COLORS` item: `key=value` sets a capability (`mt` sets both
/// `ms` and `mc`; `rv` and `ne` ignore their value), a bare `rv` or `ne`
/// turns that flag on, and anything else is ignored.
pub open spec fn apply_item(c: ColorSpec, item: Seq<u8>) -> ColorSpec {
    let eq = index_of(item, 61);
    if eq < item.len() {
        let key = item.subrange(0, eq);
        let value = item.subrange(eq + 1, item.len() as int);
        if key == key2(109, 116)  /* mt */ {
            ColorSpec { matched_selected: value, matched_context: value, ..c }
        } else if key == key2(109, 115)  /* ms */ {
            ColorSpec { matched_selected: value, ..c }
        } else if key == key2(109, 99)  /* mc */ {
            ColorSpec { matched_context: value, ..c }
        } else if key == key2(102, 110)  /* fn */ {
            ColorSpec { filename: value, ..c }
        } else if key == key2(108, 110)  /* ln */ {
            ColorSpec { line_number: value, ..c }
        } else if key == key2(98, 110)  /* bn */ {
            ColorSpec { byte_offset: value, ..c }
        } else if key == key2(115, 101)  /* se */ {
            ColorSpec { separator: value, ..c }
        } else if key == key2(115, 108)  /* sl */ {
            ColorSpec { selected_line: value, ..c }
        } else if key == key2(99, 120)  /* cx */ {
            ColorSpec { context_line: value, ..c }
        } else if key == key2(114, 118)  /* rv */ {
            ColorSpec { reverse_video: true, ..c }
        } else if key == key2(110, 101)  /* ne */ {
            ColorSpec { no_erase: true, ..c }
        } else {
            c
        }
    } else if item == key2(114, 118)  /* rv */ {
        ColorSpec { reverse_video: true, ..c }
    } else if item == key2(110, 101)  /* ne */ {
        ColorSpec { no_erase: true, ..c }
    } else {
        c
    }
}

/// The `:`-separated items of `s`, applied from left to right.
pub open spec fn apply_items(c: ColorSpec, s: Seq<u8>) -> ColorSpec
    decreases s.len(),
{
    let k = index_of(s, 58);
    if 0 <= k < s.len() {
        apply_items(apply_item(c, s.subrange(0, k)), s.subrange(k + 1, s.len() as int))
    } else {
        apply_item(c, s)
    }
}

/// The configuration that `GREP_COLOR` and `GREP_COLORS` describe.
pub open spec fn colors_from_env(grep_color: Seq<u8>, grep_colors: Seq<u8>) -> ColorSpec {
    apply_items(apply_grep_color(default_colors(), grep_color), grep_colors)
}

/// Whether `s` is the two bytes `c0 c1`.
fn is_key(s: &str, c0: u8, c1: u8) -> (r: bool)
    ensures
        r == (s.spec_bytes() == seq![c0, c1]),
{
    let b = s.as_bytes();
    if b.len() == 2 && b[0] == c0 && b[1] == c1 {
        assert(b@ =~= seq![c0, c1]);
        true
    } else {
        assert(b@.len() != 2 || b@[0] != c0 || b@[1] != c1);
        false
    }
}

proof fn lemma_literal_bytes(s: &str)
    requires
        vstd::string::is_ascii(s),
    ensures
        s.spec_bytes() =~= Seq::new(s@.len(), |i: int| s@[i] as u8),
{
    vstd::string::is_ascii_spec_bytes(s);
}

impl<'a> ColorConfig<'a> {
    /// Applies one `GREP_COLORS` item.
    fn apply(&mut self, item: &'a str)
        ensures
            final(self)@ == apply_item(old(self)@, item.spec_bytes()),
    {
        let eq = find_byte(item, 61);
        let ghost ib = item.spec_bytes();
        proof {
            lemma_index_of(ib, 61);
        }
        if eq < byte_len(item) {
            let (key, value) = split_around(item, eq);
            if is_key(key, 109, 116) {
                self.matched_selected = value;
                self.matched_context = value;
            } else if is_key(key, 109, 115) {
                self.matched_selected = value;
            } else if is_key(key, 109, 99) {
                self.matched_context = value;
            } else if is_key(key, 102, 110) {
                self.filename = value;
            } else if is_key(key, 108, 110) {
                self.line_number = value;
            } else if is_key(key, 98, 110) {
                self.byte_offset = value;
            } else if is_key(key, 115, 101) {
                self.separator = value;
            } else if is_key(key, 115, 108) {
                self.selected_line = value;
            } else if is_key(key, 99, 120) {
                self.context_line = value;
            } else if is_key(key, 114, 118) {
                self.reverse_video = true;
            } else if is_key(key, 110, 101) {
                self.no_erase = true;
            }
        } else if is_key(item, 114, 118) {
            self.reverse_video = true;
        } else if is_key(item, 110, 101) {
            self.no_erase = true;
        }
        assert(self@ =~~= apply_item(old(self)@, ib));
    }

    /// The color configuration described by `GREP_COLOR` (the color of
    /// matched text, when non-empty) and `GREP_COLORS` (a `:`-separated list
    /// of `key=value` items and the flags `rv` and `ne`), on top of GNU
    /// grep's defaults.  The strings of the result borrow from the two
    /// arguments or are the default colors.
    pub fn from_env(grep_color: &'a str, grep_colors: &'a str) -> (r: ColorConfig<'a>)
        ensures
            r@ == colors_from_env(grep_color.spec_bytes(), grep_colors.spec_bytes()),
    {
        let mut config = ColorConfig {
            matched_selected: "01;31",
            matched_context: "01;31",
            filename: "35",
            line_number: "32",
            byte_offset: "32",
            separator: "36",
            selected_line: "",
            context_line: "",
            reverse_video: false,
            no_erase: false,
        };
        proof {
            reveal_strlit("01;31");
            reveal_strlit("35");
            reveal_strlit("32");
            reveal_strlit("36");
            reveal_strlit("");
            lemma_literal_bytes("01;31");
            lemma_literal_bytes("35");
            lemma_literal_bytes("32");
            lemma_literal_bytes("36");
            lemma_literal_bytes("");
            assert("01;31".spec_bytes() =~= seq![48u8, 49, 59, 51, 49]);
            assert("35".spec_bytes() =~= seq![51u8, 53]);
            assert("32".spec_bytes() =~= seq![51u8, 50]);
            assert("36".spec_bytes() =~= seq![51u8, 54]);
            assert("".spec_bytes() =~= Seq::<u8>::empty());
            assert(config@ == default_colors());
        }
        if byte_len(grep_color) != 0 {
            config.matched_selected = grep_color;
            config.matched_context = grep_color;
            assert(config@ =~~= apply_grep_color(default_colors(), grep_color.spec_bytes()));
        }
        assert(config@ == apply_grep_color(default_colors(), grep_color.spec_bytes()));
        let ghost start = config@;
        let mut rest: &'a str = grep_colors;
        loop
            invariant_except_break
                apply_items(config@, rest.spec_bytes()) == apply_items(
                    start,
                    grep_colors.spec_bytes(),
                ),
            ensures
                config@ == apply_items(start, grep_colors.spec_bytes()),
            decreases rest.spec_bytes().len(),
        {
            let k = find_byte(rest, 58);
            proof {
                lemma_index_of(rest.spec_bytes(), 58);
            }
            if k < byte_len(rest) {
                let (item, tail) = split_around(rest, k);
                config.apply(item);
                rest = tail;
            } else {
                assert(apply_items(config@, rest.spec_bytes()) == apply_item(
                    config@,
                    rest.spec_bytes(),
                ));
                config.apply(rest);
                break ;
            }
        }
        config
    }
}

/// With no `GREP_COLORS`, the defaults stand, but for matched text when
/// `GREP_COLOR` is set.
pub proof fn law_no_grep_colors(grep_color: Seq<u8>)
    ensures
        colors_from_env(grep_color, seq![]) == apply_grep_color(default_colors(), grep_color),
{
    assert(index_of(Seq::<u8>::empty(), 58) == 0);
    assert(index_of(Seq::<u8>::empty(), 61) == 0);
}

/// `GREP_COLORS` is read from left to right: the items of `x:y` act as
/// those of `x` followed by those of `y`, so a later setting of a capability
/// overrides an earlier one.
pub proof fn law_items_left_to_right(c: ColorSpec, x: Seq<u8>, y: Seq<u8>)
    ensures
        apply_items(c, x + seq![58u8] + y) == apply_items(apply_items(c, x), y),
    decreases x.len(),
{
    let s = x + seq![58u8] + y;
    lemma_index_of(x, 58);
    let k = index_of(x, 58);
    if k < x.len() {
        assert forall|j: int| 0 <= j < k implies #[trigger] s[j] != 58 by {
            assert(s[j] == x[j]);
        }
        lemma_index_of_unique(s, 58, k);
        assert(s.subrange(0, k) =~= x.subrange(0, k));
        let xt = x.subrange(k + 1, x.len() as int);
        assert(s.subrange(k + 1, s.len() as int) =~= xt + seq![58u8] + y);
        law_items_left_to_right(apply_item(c, x.subrange(0, k)), xt, y);
    } else {
        assert forall|j: int| 0 <= j < x.len() implies #[trigger] s[j] != 58 by {
            assert(s[j] == x[j]);
        }
        lemma_index_of_unique(s, 58, x.len() as int);
        assert(s.subrange(0, x.len() as int) =~= x);
        assert(s.subrange(x.len() as int + 1, s.len() as int) =~= y);
    }
}

// ---------------------------------------------------------------------------
// What each capability ends up as
// ---------------------------------------------------------------------------

/// The items applied one after the other, from the first.
pub open spec fn fold_items(c: ColorSpec, items: Seq<Seq<u8>>) -> ColorSpec
    decreases items.len(),
{
    if items.len() == 0 {
        c
    } else {
        fold_items(apply_item(c, items[0]), items.drop_first())
    }
}

/// Capability `f` of a configuration: 0 `ms`, 1 `mc`, 2 `fn`, 3 `ln`,
/// 4 `bn`, 5 `se`, 6 `sl`, 7 `cx`.
pub open spec fn capability(c: ColorSpec, f: int) -> Seq<u8> {
    if f == 0 {
        c.matched_selected
    } else if f == 1 {
        c.matched_context
    } else if f == 2 {
        c.filename
    } else if f == 3 {
        c.line_number
    } else if f == 4 {
        c.byte_offset
    } else if f == 5 {
        c.separator
    } else if f == 6 {
        c.selected_line
    } else {
        c.context_line
    }
}

/// The key of capability `f`.
pub open spec fn capability_key(f: int) -> Seq<u8> {
    if f == 0 {
        key2(109, 115)  /* ms */
    } else if f == 1 {
        key2(109, 99)  /* mc */
    } else if f == 2 {
        key2(102, 110)  /* fn */
    } else if f == 3 {
        key2(108, 110)  /* ln */
    } else if f == 4 {
        key2(98, 110)  /* bn */
    } else if f == 5 {
        key2(115, 101)  /* se */
    } else if f == 6 {
        key2(115, 108)  /* sl */
    } else {
        key2(99, 120)  /* cx */
    }
}

/// An item of the form `key=value`.
pub open spec fn has_value(item: Seq<u8>) -> bool {
    index_of(item, 61) < item.len()
}

/// The key of a `key=value` item: what stands before the first `=`.
pub open spec fn item_key(item: Seq<u8>) -> Seq<u8> {
    item.subrange(0, index_of(item, 61))
}

/// The value of a `key=value` item: what follows the first `=`.
pub open spec fn item_value(item: Seq<u8>) -> Seq<u8> {
    item.subrange(index_of(item, 61) + 1, item.len() as int)
}

/// The item sets capability `f`: its key is that of `f`, or `mt` for `ms`
/// and `mc`.
pub open spec fn sets_capability(item: Seq<u8>, f: int) -> bool {
    has_value(item) && (item_key(item) == capability_key(f) || (0 <= f <= 1 && item_key(item)
        == key2(109, 116)))
}

/// The value that the last item setting capability `f` gives it, if any.
pub open spec fn last_setting(items: Seq<Seq<u8>>, f: int) -> Option<Seq<u8>>
    decreases items.len(),
{
    if items.len() == 0 {
        None
    } else {
        match last_setting(items.drop_first(), f) {
            Some(v) => Some(v),
            None => if sets_capability(items[0], f) {
                Some(item_value(items[0]))
            } else {
                None
            },
        }
    }
}

/// The item names the flag `key` (`rv` or `ne`): bare, or with a value.
pub open spec fn names_flag(item: Seq<u8>, key: Seq<u8>) -> bool {
    (has_value(item) && item_key(item) == key) || item == key
}

proof fn lemma_apply_item_fields(c: ColorSpec, item: Seq<u8>)
    ensures
        forall|f: int|
            0 <= f < 8 ==> #[trigger] capability(apply_item(c, item), f) == if sets_capability(
                item,
                f,
            ) {
                item_value(item)
            } else {
                capability(c, f)
            },
        apply_item(c, item).reverse_video == (c.reverse_video || names_flag(item, key2(114, 118))),
        apply_item(c, item).no_erase == (c.no_erase || names_flag(item, key2(110, 101))),
{
    lemma_index_of(item, 61);
    if has_value(item) {
        let key = item_key(item);
        if key.len() == 2 {
            assert(key == key2(key[0], key[1]));
        } else {
            assert(forall|a: u8, b: u8| key != #[trigger] key2(a, b));
        }
    } else {
        if item.len() == 2 {
            assert(item == key2(item[0], item[1]));
        }
        assert(forall|f: int| 0 <= f < 8 ==> !#[trigger] sets_capability(item, f));
    }
}

proof fn lemma_apply_items_fold(c: ColorSpec, s: Seq<u8>)
    ensures
        apply_items(c, s) == fold_items(c, split_bytes(s, 58)),
    decreases s.len(),
{
    lemma_index_of(s, 58);
    let k = index_of(s, 58);
    if k < s.len() {
        let t = s.subrange(k + 1, s.len() as int);
        lemma_apply_items_fold(apply_item(c, s.subrange(0, k)), t);
        let items = split_bytes(s, 58);
        assert(items[0] == s.subrange(0, k));
        assert(items.drop_first() =~= split_bytes(t, 58));
        assert(fold_items(c, items) == fold_items(apply_item(c, items[0]), items.drop_first()));
    } else {
        let items = split_bytes(s, 58);
        assert(items == seq![s]);
        assert(items.drop_first() =~= Seq::<Seq<u8>>::empty());
        assert(fold_items(apply_item(c, s), Seq::<Seq<u8>>::empty()) == apply_item(c, s));
        assert(fold_items(c, items) == fold_items(apply_item(c, items[0]), items.drop_first()));
    }
}

proof fn lemma_fold_fields(c: ColorSpec, items: Seq<Seq<u8>>, f: int)
    requires
        0 <= f < 8,
    ensures
        capability(fold_items(c, items), f) == match last_setting(items, f) {
            Some(v) => v,
            None => capability(c, f),
        },
        fold_items(c, items).reverse_video == (c.reverse_video || exists|i: int|
            0 <= i < items.len() && names_flag(#[trigger] items[i], key2(114, 118))),
        fold_items(c, items).no_erase == (c.no_erase || exists|i: int|
            0 <= i < items.len() && names_flag(#[trigger] items[i], key2(110, 101))),
    decreases items.len(),
{
    if items.len() > 0 {
        let c1 = apply_item(c, items[0]);
        let rest = items.drop_first();
        lemma_apply_item_fields(c, items[0]);
        lemma_fold_fields(c1, rest, f);
        assert(capability(c1, f) == if sets_capability(items[0], f) {
            item_value(items[0])
        } else {
            capability(c, f)
        });
        let rv = key2(114, 118);
        let ne = key2(110, 101);
        assert((exists|i: int| 0 <= i < items.len() && names_flag(#[trigger] items[i], rv)) <==> (
        names_flag(items[0], rv) || exists|i: int|
            0 <= i < rest.len() && names_flag(#[trigger] rest[i], rv))) by {
            if exists|i: int| 0 <= i < items.len() && names_flag(#[trigger] items[i], rv) {
                let i = choose|i: int| 0 <= i < items.len() && names_flag(#[trigger] items[i], rv);
                if i > 0 {
                    assert(rest[i - 1] == items[i]);
                }
            }
            if exists|i: int| 0 <= i < rest.len() && names_flag(#[trigger] rest[i], rv) {
                let i = choose|i: int| 0 <= i < rest.len() && names_flag(#[trigger] rest[i], rv);
                assert(items[i + 1] == rest[i]);
            }
        }
        assert((exists|i: int| 0 <= i < items.len() && names_flag(#[trigger] items[i], ne)) <==> (
        names_flag(items[0], ne) || exists|i: int|
            0 <= i < rest.len() && names_flag(#[trigger] rest[i], ne))) by {
            if exists|i: int| 0 <= i < items.len() && names_flag(#[trigger] items[i], ne) {
                let i = choose|i: int| 0 <= i < items.len() && names_flag(#[trigger] items[i], ne);
                if i > 0 {
                    assert(rest[i - 1] == items[i]);
                }
            }
            if exists|i: int| 0 <= i < rest.len() && names_flag(#[trigger] rest[i], ne) {
                let i = choose|i: int| 0 <= i < rest.len() && names_flag(#[trigger] rest[i], ne);
                assert(items[i + 1] == rest[i]);
            }
        }
    }
}

/// Each capability (`ms`, `mc`, `fn`, `ln`, `bn`, `se`, `sl`, `cx`) takes
/// the value of the last `GREP_COLORS` item that sets it (`mt` sets `ms` and
/// `mc`); without one, the color of matched text is a non-empty
/// `GREP_COLOR`, and otherwise the default stands.
pub proof fn law_last_setting_wins(grep_color: Seq<u8>, grep_colors: Seq<u8>, f: int)
    requires
        0 <= f < 8,
    ensures
        capability(colors_from_env(grep_color, grep_colors), f) == match last_setting(
            split_bytes(grep_colors, 58),
            f,
        ) {
            Some(v) => v,
            None => capability(apply_grep_color(default_colors(), grep_color), f),
        },
{
    let c = apply_grep_color(default_colors(), grep_color);
    lemma_apply_items_fold(c, grep_colors);
    lemma_fold_fields(c, split_bytes(grep_colors, 58), f);
}

/// `rv` and `ne` are on exactly when some `GREP_COLORS` item names them,
/// bare or with a value; no later item turns them off.
pub proof fn law_flags_named(grep_color: Seq<u8>, grep_colors: Seq<u8>)
    ensures
        colors_from_env(grep_color, grep_colors).reverse_video <==> exists|i: int|
            0 <= i < split_bytes(grep_colors, 58).len() && names_flag(
                #[trigger] split_bytes(grep_colors, 58)[i],
                key2(114, 118),
            ),
        colors_from_env(grep_color, grep_colors).no_erase <==> exists|i: int|
            0 <= i < split_bytes(grep_colors, 58).len() && names_flag(
                #[trigger] split_bytes(grep_colors, 58)[i],
                key2(110, 101),
            ),
{
    let c = apply_grep_color(default_colors(), grep_color);
    lemma_apply_items_fold(c, grep_colors);
    lemma_fold_fields(c, split_bytes(grep_colors, 58), 0);
}

/// `GREP_COLOR` changes only the color of matched text.  A capability that
/// no `GREP_COLORS` item sets keeps GNU grep's default (`fn=35`, `ln=32`,
/// `bn=32`, `se=36`, and no color for `sl` and `cx`); `ms` and `mc` become
/// a non-empty `GREP_COLOR`, and `01;31` otherwise.
pub proof fn law_grep_color_only_for_matched_text(
    grep_color: Seq<u8>,
    grep_colors: Seq<u8>,
    f: int,
)
    requires
        0 <= f < 8,
        last_setting(split_bytes(grep_colors, 58), f) is None,
    ensures
        capability(colors_from_env(grep_color, grep_colors), f) == if f <= 1 {
            if grep_color.len() > 0 {
                grep_color
            } else {
                seq![48u8, 49, 59, 51, 49]
            }
        } else if f == 2 {
            seq![51u8, 53]
        } else if f == 3 || f == 4 {
            seq![51u8, 50]
        } else if f == 5 {
            seq![51u8, 54]
        } else {
            Seq::<u8>::empty()
        },
{
    law_last_setting_wins(grep_color, grep_colors, f);
}

} // verus!
