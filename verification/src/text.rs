//! Conversion between bytes and `String`s.

use vstd::prelude::*;
use vstd::string::StrSliceExecFns;
use vstd::utf8::*;

verus! {

/// `String::from_utf8` of std: the string that the bytes encode, when they
/// are valid UTF-8, and no string otherwise.
#[verifier::external_body]
pub(crate) fn string_from_utf8(bytes: Vec<u8>) -> (res: Option<String>)
    ensures
        res is Some <==> valid_utf8(bytes@),
        res matches Some(s) ==> s@ == decode_utf8(bytes@),
{
    String::from_utf8(bytes).ok()
}

/// What `String::from_utf8_lossy` makes of `bytes`: their characters, with
/// each invalid sequence replaced by U+FFFD.
pub uninterp spec fn utf8_lossy(bytes: Seq<u8>) -> Seq<char>;

/// `String::from_utf8_lossy` of std, made into an owned `String`: the
/// characters of the bytes, invalid sequences replaced by U+FFFD; for valid
/// UTF-8, exactly the characters that the bytes encode.
#[verifier::external_body]
pub(crate) fn string_from_utf8_lossy(bytes: &[u8]) -> (s: String)
    ensures
        s@ == utf8_lossy(bytes@),
        valid_utf8(bytes@) ==> s@ == decode_utf8(bytes@),
{
    String::from_utf8_lossy(bytes).into_owned()
}

/// The characters of a sequence of ASCII bytes, one for one.
pub open spec fn ascii_chars(b: Seq<u8>) -> Seq<char> {
    b.map_values(|x: u8| x as char)
}

pub open spec fn all_ascii(b: Seq<u8>) -> bool {
    forall|k: int| 0 <= k < b.len() ==> #[trigger] b[k] < 128
}

/// ASCII bytes are valid UTF-8 and decode to the characters of the same codes.
pub proof fn lemma_ascii_utf8(b: Seq<u8>)
    requires
        all_ascii(b),
    ensures
        valid_utf8(b),
        decode_utf8(b) == ascii_chars(b),
    decreases b.len(),
{
    if b.len() > 0 {
        let x = b[0];
        assert(x & 0x7f == x) by (bit_vector)
            requires
                x < 128,
        ;
        let t = b.drop_first();
        assert(pop_first_scalar(b) =~= t);
        assert(all_ascii(t)) by {
            assert forall|k: int| 0 <= k < t.len() implies #[trigger] t[k] < 128 by {
                assert(t[k] == b[k + 1]);
            }
        }
        lemma_ascii_utf8(t);
        assert(decode_utf8(b) =~= ascii_chars(b));
    }
}

/// Turn a sequence of ASCII bytes into a `String` of the same characters.
pub fn ascii_to_string(bytes: Vec<u8>) -> (s: String)
    requires
        all_ascii(bytes@),
    ensures
        s@ == ascii_chars(bytes@),
{
    proof {
        lemma_ascii_utf8(bytes@);
    }
    let ghost b = bytes@;
    match string_from_utf8(bytes) {
        Some(s) => s,
        None => {
            proof {
                assert(false);
            }
            String::new()
        },
    }
}

/// Whether `c` has Unicode's White_Space property, the characters that
/// `str::split_whitespace` splits on.
pub open spec fn is_white_space(c: char) -> bool {
    let u = c as u32;
    ||| 0x09 <= u <= 0x0d
    ||| u == 0x20
    ||| u == 0x85
    ||| u == 0xa0
    ||| u == 0x1680
    ||| 0x2000 <= u <= 0x200a
    ||| u == 0x2028
    ||| u == 0x2029
    ||| u == 0x202f
    ||| u == 0x205f
    ||| u == 0x3000
}

/// Whether `c` has Unicode's White_Space property.
pub fn white_space(c: char) -> (b: bool)
    ensures
        b == is_white_space(c),
{
    let u = c as u32;
    (0x09 <= u && u <= 0x0d) || u == 0x20 || u == 0x85 || u == 0xa0 || u == 0x1680 || (0x2000 <= u && u <= 0x200a)
        || u == 0x2028 || u == 0x2029 || u == 0x202f || u == 0x205f || u == 0x3000
}

/// The end of the run of non-white-space characters of `s` that starts at `i`.
pub open spec fn word_end(s: Seq<char>, i: int) -> int
    decreases s.len() - i,
{
    if i >= s.len() || is_white_space(s[i]) {
        i
    } else {
        word_end(s, i + 1)
    }
}

pub proof fn lemma_word_end(s: Seq<char>, i: int)
    requires
        0 <= i <= s.len(),
    ensures
        i <= word_end(s, i) <= s.len(),
        i < s.len() && !is_white_space(s[i]) ==> i < word_end(s, i),
    decreases s.len() - i,
{
    if i < s.len() && !is_white_space(s[i]) {
        lemma_word_end(s, i + 1);
    }
}

/// The words of `s` from position `i` on: its maximal runs of characters
/// that are not white space, in order.
pub open spec fn words_from(s: Seq<char>, i: int) -> Seq<Seq<char>>
    decreases s.len() - i,
{
    if i < 0 || i >= s.len() {
        Seq::empty()
    } else if is_white_space(s[i]) {
        words_from(s, i + 1)
    } else {
        proof {
            lemma_word_end(s, i);
        }
        seq![s.subrange(i, word_end(s, i))] + words_from(s, word_end(s, i))
    }
}

/// The words of `s`, as `str::split_whitespace` gives them.
pub open spec fn words(s: Seq<char>) -> Seq<Seq<char>> {
    words_from(s, 0)
}

/// Split `s` at white space into its words, in order.
pub fn split_whitespace(s: &str) -> (ws: Vec<String>)
    ensures
        ws.deep_view() == words(s@),
{
    let n = s.unicode_len();
    let mut out: Vec<String> = Vec::new();
    let mut i: usize = 0;
    assert(out.deep_view() + words_from(s@, 0) =~= words(s@));
    while i < n
        invariant
            n == s@.len(),
            i <= n,
            out.deep_view() + words_from(s@, i as int) == words(s@),
        decreases n - i,
    {
        if white_space(s.get_char(i)) {
            i += 1;
        } else {
            let mut j: usize = i + 1;
            proof {
                lemma_word_end(s@, i as int);
            }
            while j < n && !white_space(s.get_char(j))
                invariant
                    n == s@.len(),
                    i < j <= n,
                    word_end(s@, i as int) == word_end(s@, j as int),
                decreases n - j,
            {
                j += 1;
            }
            let w = s.substring_char(i, j).to_owned();
            let ghost before = out.deep_view();
            out.push(w);
            assert(out.deep_view() =~= before.push(w@));
            assert(before.push(w@) + words_from(s@, j as int) =~= before + (seq![w@] + words_from(s@, j as int)));
            i = j;
        }
    }
    assert(words_from(s@, n as int) =~= Seq::<Seq<char>>::empty());
    assert(out.deep_view() + Seq::<Seq<char>>::empty() =~= out.deep_view());
    out
}

/// Whether `s` starts with `prefix`.
pub open spec fn starts_with(s: Seq<char>, prefix: Seq<char>) -> bool {
    s.len() >= prefix.len() && s.take(prefix.len() as int) == prefix
}

/// Whether `s` starts with `prefix`.
pub fn str_starts_with(s: &str, prefix: &str) -> (b: bool)
    ensures
        b == starts_with(s@, prefix@),
{
    let n = s.unicode_len();
    let m = prefix.unicode_len();
    if n < m {
        return false;
    }
    let mut i: usize = 0;
    while i < m
        invariant
            i <= m,
            m <= n,
            n == s@.len(),
            m == prefix@.len(),
            forall|j: int| 0 <= j < i ==> s@[j] == prefix@[j],
        decreases m - i,
    {
        if s.get_char(i) != prefix.get_char(i) {
            assert(s@.take(m as int)[i as int] != prefix@[i as int]);
            return false;
        }
        i += 1;
    }
    assert(s@.take(m as int) =~= prefix@);
    true
}

} // verus!
