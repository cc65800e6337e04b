use vstd::prelude::*;
use vstd::string::StringSliceAdditionalSpecFns;
use vstd::utf8::*;

verus! {

broadcast use vstd::string::group_string_axioms;

/// The first index of byte `b` in `s`, or `s.len()` when `b` does not occur.
pub open spec fn index_of(s: Seq<u8>, b: u8) -> int
    decreases s.len(),
{
    if s.len() == 0 {
        0
    } else if s[0] == b {
        0
    } else {
        1 + index_of(s.subrange(1, s.len() as int), b)
    }
}

/// `s` cut at every occurrence of `sep`, as `str::split` does with a
/// one-byte separator: `k` separators give `k + 1` pieces, empty ones
/// included.
pub open spec fn split_bytes(s: Seq<u8>, sep: u8) -> Seq<Seq<u8>>
    decreases s.len(),
{
    let k = index_of(s, sep);
    if 0 <= k < s.len() {
        seq![s.subrange(0, k)] + split_bytes(s.subrange(k + 1, s.len() as int), sep)
    } else {
        seq![s]
    }
}

/// The UTF-8 bytes of each string.
pub open spec fn strs_bytes(v: Seq<&str>) -> Seq<Seq<u8>> {
    v.map_values(|x: &str| x.spec_bytes())
}

pub proof fn lemma_index_of(s: Seq<u8>, b: u8)
    ensures
        0 <= index_of(s, b) <= s.len(),
        forall|j: int| 0 <= j < index_of(s, b) ==> #[trigger] s[j] != b,
        index_of(s, b) < s.len() ==> s[index_of(s, b)] == b,
    decreases s.len(),
{
    if s.len() > 0 && s[0] != b {
        let t = s.subrange(1, s.len() as int);
        lemma_index_of(t, b);
        assert forall|j: int| 0 <= j < index_of(s, b) implies #[trigger] s[j] != b by {
            if j > 0 {
                assert(s[j] == t[j - 1]);
            }
        }
    }
}

pub proof fn lemma_index_of_unique(s: Seq<u8>, b: u8, k: int)
    requires
        0 <= k <= s.len(),
        forall|j: int| 0 <= j < k ==> #[trigger] s[j] != b,
        k < s.len() ==> s[k] == b,
    ensures
        index_of(s, b) == k,
    decreases s.len(),
{
    if s.len() > 0 && k > 0 {
        let t = s.subrange(1, s.len() as int);
        assert forall|j: int| 0 <= j < k - 1 implies #[trigger] t[j] != b by {
            assert(t[j] == s[j + 1]);
        }
        if k - 1 < t.len() {
            assert(t[k - 1] == s[k]);
        }
        lemma_index_of_unique(t, b, k - 1);
    }
}

/// A position that holds an ASCII byte, or the end, is a character boundary.
proof fn lemma_ascii_boundary(s: &str, k: int)
    requires
        0 <= k <= s.spec_bytes().len(),
        k < s.spec_bytes().len() ==> s.spec_bytes()[k] < 128,
    ensures
        is_char_boundary(s.spec_bytes(), k),
{
    encode_utf8_valid_utf8(s@);
    if k == s.spec_bytes().len() {
        is_char_boundary_start_end_of_seq(s.spec_bytes());
    } else {
        is_char_boundary_iff_not_is_continuation_byte(s.spec_bytes(), k);
    }
}

/// The position right after a leading ASCII byte is a character boundary.
proof fn lemma_boundary_after_ascii(s: &str)
    requires
        s.spec_bytes().len() >= 1,
        s.spec_bytes()[0] < 128,
    ensures
        is_char_boundary(s.spec_bytes(), 1),
{
    let b = s.spec_bytes();
    encode_utf8_valid_utf8(s@);
    assert(length_of_first_scalar(b) == 1);
    let t = pop_first_scalar(b);
    assert(is_char_boundary(t, 0));
    reveal_with_fuel(is_char_boundary, 2);
}

/// The length of `s` in bytes.
pub fn byte_len(s: &str) -> (n: usize)
    ensures
        n == s.spec_bytes().len(),
{
    s.as_bytes().len()
}

/// The index of the first byte `b` in `s`, or its length.
pub fn find_byte(s: &str, b: u8) -> (k: usize)
    ensures
        k == index_of(s.spec_bytes(), b),
{
    let bytes = s.as_bytes();
    let mut k: usize = 0;
    while k < bytes.len() && bytes[k] != b
        invariant
            bytes@ == s.spec_bytes(),
            k <= bytes.len(),
            forall|j: int| 0 <= j < k ==> #[trigger] bytes@[j] != b,
        decreases bytes.len() - k,
    {
        k = k + 1;
    }
    proof {
        lemma_index_of_unique(s.spec_bytes(), b, k as int);
    }
    k
}

/// Splits `s` around the ASCII byte at `k`: the part before it and the part
/// after it.
pub fn split_around(s: &str, k: usize) -> (r: (&str, &str))
    requires
        k < s.spec_bytes().len(),
        s.spec_bytes()[k as int] < 128,
    ensures
        r.0.spec_bytes() == s.spec_bytes().subrange(0, k as int),
        r.1.spec_bytes() == s.spec_bytes().subrange(k + 1, s.spec_bytes().len() as int),
{
    proof {
        lemma_ascii_boundary(s, k as int);
    }
    let (head, tail) = s.split_at(k);
    proof {
        assert(tail.spec_bytes()[0] == s.spec_bytes()[k as int]);
        lemma_boundary_after_ascii(tail);
    }
    let (_sep, after) = tail.split_at(1);
    assert(after.spec_bytes() =~= s.spec_bytes().subrange(k + 1, s.spec_bytes().len() as int));
    (head, after)
}

/// Whether the bytes of `s` are `word`.
pub fn str_equals(s: &str, word: &[u8]) -> (r: bool)
    ensures
        r == (s.spec_bytes() == word@),
{
    let b = s.as_bytes();
    if b.len() != word.len() {
        assert(b@.len() != word@.len());
        return false;
    }
    let mut k: usize = 0;
    while k < word.len()
        invariant
            b@ == s.spec_bytes(),
            b@.len() == word@.len(),
            k <= word.len(),
            forall|j: int| 0 <= j < k ==> b@[j] == word@[j],
        decreases word.len() - k,
    {
        if b[k] != word[k] {
            return false;
        }
        k = k + 1;
    }
    assert(b@ =~= word@);
    true
}

/// Appends the pieces of `s` cut at every `sep` to `out`.
pub fn push_pieces<'a>(out: &mut Vec<&'a str>, s: &'a str, sep: u8)
    requires
        sep < 128,
    ensures
        strs_bytes(final(out)@) == strs_bytes(old(out)@) + split_bytes(s.spec_bytes(), sep),
{
    let mut rest: &'a str = s;
    loop
        invariant_except_break
            sep < 128,
            strs_bytes(out@) + split_bytes(rest.spec_bytes(), sep) == strs_bytes(old(out)@)
                + split_bytes(s.spec_bytes(), sep),
        ensures
            strs_bytes(out@) == strs_bytes(old(out)@) + split_bytes(s.spec_bytes(), sep),
        decreases rest.spec_bytes().len(),
    {
        let k = find_byte(rest, sep);
        proof {
            lemma_index_of(rest.spec_bytes(), sep);
        }
        let ghost before = out@;
        if k < byte_len(rest) {
            let (piece, tail) = split_around(rest, k);
            out.push(piece);
            assert(strs_bytes(out@) =~= strs_bytes(before) + seq![piece.spec_bytes()]);
            assert(strs_bytes(out@) + split_bytes(tail.spec_bytes(), sep) =~= strs_bytes(before)
                + split_bytes(rest.spec_bytes(), sep));
            rest = tail;
        } else {
            out.push(rest);
            assert(strs_bytes(out@) =~= strs_bytes(before) + seq![rest.spec_bytes()]);
            assert(split_bytes(rest.spec_bytes(), sep) == seq![rest.spec_bytes()]);
            break ;
        }
    }
}

/// The pieces joined back with `sep` between them.
pub open spec fn join_bytes(pieces: Seq<Seq<u8>>, sep: u8) -> Seq<u8>
    decreases pieces.len(),
{
    if pieces.len() == 0 {
        seq![]
    } else if pieces.len() == 1 {
        pieces[0]
    } else {
        pieces[0] + seq![sep] + join_bytes(pieces.drop_first(), sep)
    }
}

/// Cutting loses nothing: the pieces hold no separator, and joining them
/// with the separator gives back the text.
pub proof fn law_split_join(s: Seq<u8>, sep: u8)
    ensures
        join_bytes(split_bytes(s, sep), sep) == s,
        forall|i: int, j: int|
            0 <= i < split_bytes(s, sep).len() && 0 <= j < split_bytes(s, sep)[i].len()
                ==> #[trigger] split_bytes(s, sep)[i][j] != sep,
    decreases s.len(),
{
    lemma_index_of(s, sep);
    let k = index_of(s, sep);
    if k < s.len() {
        let t = s.subrange(k + 1, s.len() as int);
        law_split_join(t, sep);
        let parts = split_bytes(s, sep);
        assert(parts.drop_first() =~= split_bytes(t, sep));
        assert(split_bytes(t, sep).len() >= 1);
        assert(s =~= s.subrange(0, k) + seq![sep] + t);
        assert forall|i: int, j: int|
            0 <= i < parts.len() && 0 <= j < parts[i].len() implies #[trigger] parts[i][j] != sep by {
            if i > 0 {
                assert(parts[i] == split_bytes(t, sep)[i - 1]);
            }
        }
    }
}

} // verus!
