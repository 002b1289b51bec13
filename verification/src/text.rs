//! Text handling for incoming frames: lossy UTF-8 decoding, Unicode
//! whitespace, upper-casing, and extraction of the first word of a line.
use vstd::prelude::*;
use vstd::utf8::*;
use vstd::string::*;

verus! {

/// The characters that carry the Unicode `White_Space` property
/// (PropList.txt): U+0009..U+000D, U+0020, U+0085, U+00A0, U+1680,
/// U+2000..U+200A, U+2028, U+2029, U+202F, U+205F and U+3000.
pub open spec fn is_white_space(c: char) -> bool {
    let u = c as u32;
    ||| 0x09 <= u <= 0x0D
    ||| u == 0x20
    ||| u == 0x85
    ||| u == 0xA0
    ||| u == 0x1680
    ||| 0x2000 <= u <= 0x200A
    ||| u == 0x2028
    ||| u == 0x2029
    ||| u == 0x202F
    ||| u == 0x205F
    ||| u == 0x3000
}

/// The ASCII upper-case form of a character: `a`..`z` become `A`..`Z`,
/// every other character is left as it is.
pub open spec fn ascii_upper(c: char) -> char {
    if 'a' <= c <= 'z' {
        ((c as u32) - 32) as char
    } else {
        c
    }
}

/// What `String::from_utf8_lossy` makes of a byte sequence.
pub uninterp spec fn lossy_utf8(bytes: Seq<u8>) -> Seq<char>;

/// What `str::to_uppercase` makes of a character sequence.
pub uninterp spec fn unicode_upper(s: Seq<char>) -> Seq<char>;

/// How many bytes at the front of `b` are not ASCII.
pub open spec fn non_ascii_run(b: Seq<u8>) -> nat
    decreases b.len(),
{
    if b.len() > 0 && b[0] >= 0x80 {
        1 + non_ascii_run(b.drop_first())
    } else {
        0
    }
}

/// A run of non-ASCII bytes is part of the bytes, and is not empty when the
/// first byte is not ASCII.
pub proof fn lemma_non_ascii_run_bounds(b: Seq<u8>)
    ensures
        non_ascii_run(b) <= b.len(),
        b.len() > 0 && b[0] >= 0x80 ==> non_ascii_run(b) >= 1,
        forall|k: int| 0 <= k < non_ascii_run(b) ==> #[trigger] b[k] >= 0x80,
        non_ascii_run(b) < b.len() ==> b[non_ascii_run(b) as int] < 0x80,
    decreases b.len(),
{
    if b.len() > 0 && b[0] >= 0x80 {
        lemma_non_ascii_run_bounds(b.drop_first());
        assert forall|k: int| 0 <= k < non_ascii_run(b) implies #[trigger] b[k] >= 0x80 by {
            if k > 0 {
                assert(b[k] == b.drop_first()[k - 1]);
            }
        }
    }
}

/// Lossy decoding done piece by piece: every ASCII byte stands for its own
/// character, and every maximal run of non-ASCII bytes is decoded on its own
/// (as `lossy_utf8`).
pub open spec fn lossy_by_runs(b: Seq<u8>) -> Seq<char>
    decreases b.len(),
{
    if b.len() == 0 {
        seq![]
    } else if b[0] < 0x80 {
        seq![b[0] as char] + lossy_by_runs(b.drop_first())
    } else {
        let n = non_ascii_run(b) as int;
        proof {
            lemma_non_ascii_run_bounds(b);
        }
        lossy_utf8(b.take(n)) + lossy_by_runs(b.skip(n))
    }
}

/// The upper-case form of one character: ASCII letters by ASCII rules, any
/// other character by its own Unicode upper-case mapping.
pub open spec fn upper_char(c: char) -> Seq<char> {
    if (c as u32) < 0x80 {
        seq![ascii_upper(c)]
    } else {
        unicode_upper(seq![c])
    }
}

/// Upper-casing done character by character.
pub open spec fn upper_by_chars(s: Seq<char>) -> Seq<char>
    decreases s.len(),
{
    if s.len() == 0 {
        seq![]
    } else {
        upper_char(s[0]) + upper_by_chars(s.drop_first())
    }
}

/// Calls `String::from_utf8_lossy` and takes the owned string.
/// Claimed: the result is `lossy_utf8` of the bytes; when the bytes are
/// valid UTF-8 it is exactly their decoding (the documented case with no
/// replacement); and the decoding goes piece by piece as `lossy_by_runs`
/// spells it. The last holds because only invalid UTF-8 sequences are
/// replaced, and an ASCII byte is a whole sequence of its own that can
/// neither continue nor belong to a longer sequence, so it always decodes to
/// itself and the bytes on either side of it are decoded apart. What a run of
/// non-ASCII bytes becomes (U+FFFD for each invalid sequence) is left to the
/// name.
#[verifier::external_body]
pub(crate) fn decode_lossy(bytes: &[u8]) -> (text: String)
    ensures
        text@ == lossy_utf8(bytes@),
        valid_utf8(bytes@) ==> text@ == decode_utf8(bytes@),
        text@ == lossy_by_runs(bytes@),
{
    String::from_utf8_lossy(bytes).into_owned()
}

/// Calls `char::is_whitespace`.
/// Claimed: true exactly for the characters with the Unicode `White_Space`
/// property, which the documentation names as its definition.
#[verifier::external_body]
fn char_is_whitespace(c: char) -> (b: bool)
    ensures
        b == is_white_space(c),
{
    c.is_whitespace()
}

/// Calls `str::to_uppercase`.
/// Claimed: the result is `unicode_upper` of the text, and it is made
/// character by character as `upper_by_chars` spells it: the documentation
/// defines upper case by the Unicode case properties, whose default
/// upper-case conversion maps each character on its own (characters may
/// expand into several, as the documentation notes), and ASCII characters
/// map by ASCII rules. What a non-ASCII character becomes is left to the
/// name.
#[verifier::external_body]
pub(crate) fn to_upper(s: &str) -> (up: String)
    ensures
        up@ == unicode_upper(s@),
        up@ == upper_by_chars(s@),
{
    s.to_uppercase()
}

/// The index of the first character at or after `i` that is not whitespace
/// (or the length, when there is none).
pub open spec fn skip_white(s: Seq<char>, i: int) -> int
    decreases s.len() - i,
{
    if 0 <= i < s.len() && is_white_space(s[i]) {
        skip_white(s, i + 1)
    } else {
        i
    }
}

/// The index of the first whitespace character at or after `i` (or the
/// length, when there is none).
pub open spec fn skip_word(s: Seq<char>, i: int) -> int
    decreases s.len() - i,
{
    if 0 <= i < s.len() && !is_white_space(s[i]) {
        skip_word(s, i + 1)
    } else {
        i
    }
}

/// The first whitespace-separated word of `s`, or the empty sequence when `s`
/// holds only whitespace: what `s.split_whitespace().next().unwrap_or("")`
/// gives.
pub open spec fn first_word(s: Seq<char>) -> Seq<char> {
    let start = skip_white(s, 0);
    s.subrange(start, skip_word(s, start))
}

pub proof fn lemma_skip_white_bounds(s: Seq<char>, i: int)
    requires
        0 <= i <= s.len(),
    ensures
        i <= skip_white(s, i) <= s.len(),
        forall|k: int| i <= k < skip_white(s, i) ==> is_white_space(#[trigger] s[k]),
        skip_white(s, i) < s.len() ==> !is_white_space(s[skip_white(s, i)]),
    decreases s.len() - i,
{
    if i < s.len() && is_white_space(s[i]) {
        lemma_skip_white_bounds(s, i + 1);
    }
}

pub proof fn lemma_skip_word_bounds(s: Seq<char>, i: int)
    requires
        0 <= i <= s.len(),
    ensures
        i <= skip_word(s, i) <= s.len(),
        forall|k: int| i <= k < skip_word(s, i) ==> !is_white_space(#[trigger] s[k]),
        skip_word(s, i) < s.len() ==> is_white_space(s[skip_word(s, i)]),
    decreases s.len() - i,
{
    if i < s.len() && !is_white_space(s[i]) {
        lemma_skip_word_bounds(s, i + 1);
    }
}

/// Laws of the first word. It holds no whitespace; it is empty exactly when
/// the text is all whitespace; and it is the text between the leading
/// whitespace and the next whitespace (or the end).
pub proof fn lemma_first_word_shape(s: Seq<char>)
    ensures
        forall|k: int| 0 <= k < first_word(s).len() ==> !is_white_space(#[trigger] first_word(s)[k]),
        first_word(s).len() == 0 <==> (forall|k: int| 0 <= k < s.len() ==> is_white_space(#[trigger] s[k])),
        s.subrange(0, skip_white(s, 0)) + first_word(s) + s.subrange(skip_word(s, skip_white(s, 0)), s.len() as int) == s,
{
    let start = skip_white(s, 0);
    lemma_skip_white_bounds(s, 0);
    lemma_skip_word_bounds(s, start);
    let w = first_word(s);
    assert forall|k: int| 0 <= k < w.len() implies !is_white_space(#[trigger] w[k]) by {
        assert(w[k] == s[start + k]);
    }
    if w.len() == 0 {
        assert forall|k: int| 0 <= k < s.len() implies is_white_space(#[trigger] s[k]) by {
            if k >= start {
                assert(start == s.len() || !is_white_space(s[start]));
                assert(skip_word(s, start) == start);
                assert(start == s.len());
            }
        }
    }
    if forall|k: int| 0 <= k < s.len() ==> is_white_space(#[trigger] s[k]) {
        if start < s.len() {
            assert(is_white_space(s[start]));
        }
    }
    assert(s.subrange(0, start) + w + s.subrange(skip_word(s, start), s.len() as int) =~= s);
}

/// Law: whitespace before the first word, and whatever follows the
/// whitespace after it, do not change the first word.
pub proof fn lemma_first_word_of_padded(pre: Seq<char>, word: Seq<char>, post: Seq<char>)
    requires
        forall|k: int| 0 <= k < pre.len() ==> is_white_space(#[trigger] pre[k]),
        word.len() > 0,
        forall|k: int| 0 <= k < word.len() ==> !is_white_space(#[trigger] word[k]),
        post.len() == 0 || is_white_space(post[0]),
    ensures
        first_word(pre + word + post) == word,
{
    let s = pre + word + post;
    lemma_skip_to(s, 0, pre.len() as int, true);
    lemma_skip_to(s, pre.len() as int, (pre.len() + word.len()) as int, false);
    assert(s.subrange(pre.len() as int, (pre.len() + word.len()) as int) =~= word);
}

/// Scanning from `i` over a run of whitespace (or of non-whitespace) that
/// ends at `j` stops at `j`.
proof fn lemma_skip_to(s: Seq<char>, i: int, j: int, white: bool)
    requires
        0 <= i <= j <= s.len(),
        forall|k: int| i <= k < j ==> is_white_space(#[trigger] s[k]) == white,
        j < s.len() ==> is_white_space(s[j]) != white,
    ensures
        white ==> skip_white(s, i) == j,
        !white ==> skip_word(s, i) == j,
    decreases j - i,
{
    if i < j {
        assert(is_white_space(s[i]) == white);
        lemma_skip_to(s, i + 1, j, white);
    }
}

/// The two texts are of one length and differ at most in the case of ASCII
/// letters.
pub open spec fn same_up_to_ascii_case(s: Seq<char>, t: Seq<char>) -> bool {
    &&& s.len() == t.len()
    &&& forall|k: int| 0 <= k < s.len() ==> ascii_upper(#[trigger] s[k]) == ascii_upper(t[k])
}

/// Characters with one ASCII upper-case form are both whitespace or both
/// not: a case change only ever touches letters.
proof fn lemma_case_keeps_white(c: char, d: char)
    requires
        ascii_upper(c) == ascii_upper(d),
    ensures
        is_white_space(c) == is_white_space(d),
{
    if 'a' <= c <= 'z' {
        assert(ascii_upper(c) as u32 == (c as u32) - 32);
    }
    if 'a' <= d <= 'z' {
        assert(ascii_upper(d) as u32 == (d as u32) - 32);
    }
}

/// Scanning two texts whose characters are whitespace at the same places
/// stops at the same places.
proof fn lemma_skip_alike(s: Seq<char>, t: Seq<char>, i: int)
    requires
        s.len() == t.len(),
        0 <= i <= s.len(),
        forall|k: int| 0 <= k < s.len() ==> is_white_space(#[trigger] s[k]) == is_white_space(t[k]),
    ensures
        skip_white(s, i) == skip_white(t, i),
        skip_word(s, i) == skip_word(t, i),
    decreases s.len() - i,
{
    if i < s.len() {
        assert(is_white_space(s[i]) == is_white_space(t[i]));
        lemma_skip_alike(s, t, i + 1);
    }
}

/// Law: changing the case of ASCII letters does not move the first word,
/// and leaves its ASCII upper-case form as it was.
pub proof fn lemma_first_word_ignores_case(s: Seq<char>, t: Seq<char>)
    requires
        same_up_to_ascii_case(s, t),
    ensures
        same_up_to_ascii_case(first_word(s), first_word(t)),
        first_word(s).map_values(|c: char| ascii_upper(c)) == first_word(t).map_values(
            |c: char| ascii_upper(c),
        ),
{
    assert forall|k: int| 0 <= k < s.len() implies is_white_space(#[trigger] s[k])
        == is_white_space(t[k]) by {
        lemma_case_keeps_white(s[k], t[k]);
    }
    lemma_skip_alike(s, t, 0);
    let start = skip_white(s, 0);
    lemma_skip_white_bounds(s, 0);
    lemma_skip_word_bounds(s, start);
    lemma_skip_alike(s, t, start);
    let ws = first_word(s);
    let wt = first_word(t);
    assert forall|k: int| 0 <= k < ws.len() implies ascii_upper(#[trigger] ws[k]) == ascii_upper(wt[k]) by {
        assert(ws[k] == s[start + k]);
        assert(wt[k] == t[start + k]);
    }
    assert(ws.map_values(|c: char| ascii_upper(c)) =~= wt.map_values(|c: char| ascii_upper(c)));
}

/// ASCII bytes decode piece by piece to the characters they stand for.
pub proof fn lemma_lossy_ascii(b: Seq<u8>)
    requires
        forall|k: int| 0 <= k < b.len() ==> #[trigger] b[k] < 0x80,
    ensures
        lossy_by_runs(b) == b.map_values(|x: u8| x as char),
    decreases b.len(),
{
    if b.len() > 0 {
        lemma_lossy_ascii(b.drop_first());
        assert(lossy_by_runs(b) =~= b.map_values(|x: u8| x as char));
    }
}

/// A run of non-ASCII bytes that the second part does not continue ends
/// where it ended in the first part.
proof fn lemma_non_ascii_run_concat(x: Seq<u8>, y: Seq<u8>)
    requires
        y.len() == 0 || y[0] < 0x80,
    ensures
        non_ascii_run(x + y) == non_ascii_run(x),
    decreases x.len(),
{
    if x.len() == 0 {
        assert(x + y =~= y);
    } else {
        assert((x + y)[0] == x[0]);
        assert((x + y).drop_first() =~= x.drop_first() + y);
        lemma_non_ascii_run_concat(x.drop_first(), y);
    }
}

/// Law: decoding splits before an ASCII byte: what comes before it decodes
/// the same on its own.
pub proof fn lemma_lossy_concat(x: Seq<u8>, y: Seq<u8>)
    requires
        y.len() == 0 || y[0] < 0x80,
    ensures
        lossy_by_runs(x + y) == lossy_by_runs(x) + lossy_by_runs(y),
    decreases x.len(),
{
    if x.len() == 0 {
        assert(x + y =~= y);
        assert(lossy_by_runs(x) + lossy_by_runs(y) =~= lossy_by_runs(y));
    } else if x[0] < 0x80 {
        assert((x + y)[0] == x[0]);
        assert((x + y).drop_first() =~= x.drop_first() + y);
        lemma_lossy_concat(x.drop_first(), y);
        assert(lossy_by_runs(x + y) =~= lossy_by_runs(x) + lossy_by_runs(y));
    } else {
        assert((x + y)[0] == x[0]);
        lemma_non_ascii_run_concat(x, y);
        lemma_non_ascii_run_bounds(x);
        let n = non_ascii_run(x) as int;
        assert((x + y).take(n) =~= x.take(n));
        assert((x + y).skip(n) =~= x.skip(n) + y);
        lemma_lossy_concat(x.skip(n), y);
        assert(lossy_by_runs(x + y) =~= lossy_by_runs(x) + lossy_by_runs(y));
    }
}

/// Two byte sequences of one length that differ at most in the case of
/// ASCII letters.
pub open spec fn bytes_same_up_to_ascii_case(a: Seq<u8>, b: Seq<u8>) -> bool {
    &&& a.len() == b.len()
    &&& forall|k: int| 0 <= k < a.len() ==> ascii_upper(#[trigger] a[k] as char) == ascii_upper(b[k] as char)
}

/// Characters with one ASCII upper-case form are both ASCII, or are one and
/// the same character.
proof fn lemma_same_upper_chars(c: char, d: char)
    requires
        ascii_upper(c) == ascii_upper(d),
    ensures
        (c as u32) < 0x80 <==> (d as u32) < 0x80,
        (c as u32) >= 0x80 ==> c == d,
{
    if 'a' <= c <= 'z' {
        assert(ascii_upper(c) as u32 == (c as u32) - 32);
    }
    if 'a' <= d <= 'z' {
        assert(ascii_upper(d) as u32 == (d as u32) - 32);
    }
}

/// Bytes with one ASCII upper-case form are both ASCII, or are one byte.
proof fn lemma_same_upper_bytes(x: u8, y: u8)
    requires
        ascii_upper(x as char) == ascii_upper(y as char),
    ensures
        x < 0x80 <==> y < 0x80,
        x >= 0x80 ==> x == y,
{
    lemma_same_upper_chars(x as char, y as char);
    assert((x as char) as u32 == x as u32);
    assert((y as char) as u32 == y as u32);
}

/// Runs of non-ASCII bytes are untouched by a change of ASCII case.
proof fn lemma_non_ascii_run_same_case(a: Seq<u8>, b: Seq<u8>)
    requires
        bytes_same_up_to_ascii_case(a, b),
    ensures
        non_ascii_run(a) == non_ascii_run(b),
        a.take(non_ascii_run(a) as int) == b.take(non_ascii_run(a) as int),
    decreases a.len(),
{
    lemma_non_ascii_run_bounds(a);
    if a.len() > 0 {
        lemma_same_upper_bytes(a[0], b[0]);
        if a[0] >= 0x80 {
            assert forall|k: int| 0 <= k < a.drop_first().len() implies ascii_upper(
                #[trigger] a.drop_first()[k] as char,
            ) == ascii_upper(b.drop_first()[k] as char) by {
                assert(a.drop_first()[k] == a[k + 1]);
                assert(b.drop_first()[k] == b[k + 1]);
            }
            lemma_non_ascii_run_same_case(a.drop_first(), b.drop_first());
            let n = non_ascii_run(a) as int;
            assert(a.take(n) =~= seq![a[0]] + a.drop_first().take(n - 1));
            assert(b.take(n) =~= seq![b[0]] + b.drop_first().take(n - 1));
        } else {
            assert(a.take(0) =~= b.take(0));
        }
    } else {
        assert(a.take(0) =~= b.take(0));
    }
}

/// Two texts that differ at most in ASCII case, joined to two more such
/// texts, still differ at most in ASCII case.
proof fn lemma_same_case_concat(s1: Seq<char>, t1: Seq<char>, s2: Seq<char>, t2: Seq<char>)
    requires
        same_up_to_ascii_case(s1, t1),
        same_up_to_ascii_case(s2, t2),
    ensures
        same_up_to_ascii_case(s1 + s2, t1 + t2),
{
    assert forall|k: int| 0 <= k < (s1 + s2).len() implies ascii_upper(#[trigger] (s1 + s2)[k])
        == ascii_upper((t1 + t2)[k]) by {
        if k < s1.len() {
            assert(ascii_upper(s1[k]) == ascii_upper(t1[k]));
        } else {
            assert(ascii_upper(s2[k - s1.len()]) == ascii_upper(t2[k - s1.len()]));
        }
    }
}

/// Law: changing the case of ASCII letters in the bytes changes the decoded
/// text only in the case of the same ASCII letters.
pub proof fn lemma_lossy_same_case(a: Seq<u8>, b: Seq<u8>)
    requires
        bytes_same_up_to_ascii_case(a, b),
    ensures
        same_up_to_ascii_case(lossy_by_runs(a), lossy_by_runs(b)),
    decreases a.len(),
{
    if a.len() > 0 {
        lemma_same_upper_bytes(a[0], b[0]);
        if a[0] < 0x80 {
            assert forall|k: int| 0 <= k < a.drop_first().len() implies ascii_upper(
                #[trigger] a.drop_first()[k] as char,
            ) == ascii_upper(b.drop_first()[k] as char) by {
                assert(a.drop_first()[k] == a[k + 1]);
                assert(b.drop_first()[k] == b[k + 1]);
            }
            lemma_lossy_same_case(a.drop_first(), b.drop_first());
            lemma_same_case_concat(seq![a[0] as char], seq![b[0] as char], lossy_by_runs(a.drop_first()), lossy_by_runs(b.drop_first()));
        } else {
            lemma_non_ascii_run_same_case(a, b);
            lemma_non_ascii_run_bounds(a);
            let n = non_ascii_run(a) as int;
            assert forall|k: int| 0 <= k < a.skip(n).len() implies ascii_upper(
                #[trigger] a.skip(n)[k] as char,
            ) == ascii_upper(b.skip(n)[k] as char) by {
                assert(a.skip(n)[k] == a[k + n]);
                assert(b.skip(n)[k] == b[k + n]);
            }
            lemma_lossy_same_case(a.skip(n), b.skip(n));
            let l = lossy_utf8(a.take(n));
            assert(same_up_to_ascii_case(l, l));
            lemma_same_case_concat(l, l, lossy_by_runs(a.skip(n)), lossy_by_runs(b.skip(n)));
        }
    } else {
        assert(same_up_to_ascii_case(lossy_by_runs(a), lossy_by_runs(b)));
    }
}

/// Law: upper-casing character by character erases ASCII case and nothing
/// else: texts that differ at most in ASCII case upper-case alike.
pub proof fn lemma_upper_same_case(s: Seq<char>, t: Seq<char>)
    requires
        same_up_to_ascii_case(s, t),
    ensures
        upper_by_chars(s) == upper_by_chars(t),
    decreases s.len(),
{
    if s.len() > 0 {
        lemma_same_upper_chars(s[0], t[0]);
        assert(ascii_upper(s[0]) == ascii_upper(t[0]));
        assert(upper_char(s[0]) == upper_char(t[0]));
        assert forall|k: int| 0 <= k < s.drop_first().len() implies ascii_upper(
            #[trigger] s.drop_first()[k],
        ) == ascii_upper(t.drop_first()[k]) by {
            assert(s.drop_first()[k] == s[k + 1]);
            assert(t.drop_first()[k] == t[k + 1]);
        }
        lemma_upper_same_case(s.drop_first(), t.drop_first());
    }
}

/// On ASCII text, upper-casing character by character is the ASCII mapping.
pub proof fn lemma_upper_ascii(s: Seq<char>)
    requires
        is_ascii_chars(s),
    ensures
        upper_by_chars(s) == s.map_values(|c: char| ascii_upper(c)),
    decreases s.len(),
{
    if s.len() > 0 {
        assert(is_ascii_chars(s.drop_first())) by {
            assert forall|k: int| 0 <= k < s.drop_first().len() implies '\0' <= #[trigger] s.drop_first()[k]
                <= '\u{7f}' by {
                assert(s.drop_first()[k] == s[k + 1]);
            }
        }
        lemma_upper_ascii(s.drop_first());
        assert(s[0] <= '\u{7f}');
        assert(upper_by_chars(s) =~= s.map_values(|c: char| ascii_upper(c)));
    }
}

/// The characters of `text`, in order.
fn chars_of(text: &str) -> (cs: Vec<char>)
    ensures
        cs@ == text@,
{
    let n = text.unicode_len();
    let mut cs: Vec<char> = Vec::new();
    let mut i: usize = 0;
    while i < n
        invariant
            n == text@.len(),
            i <= n,
            cs@ == text@.take(i as int),
        decreases n - i,
    {
        let c = text.get_char(i);
        cs.push(c);
        i = i + 1;
        assert(cs@ =~= text@.take(i as int));
    }
    assert(cs@ =~= text@);
    cs
}

/// The first whitespace-separated word of `text` (empty when there is none).
pub fn first_word_of(text: &str) -> (word: String)
    ensures
        word@ == first_word(text@),
{
    let cs = chars_of(text);
    let n = cs.len();
    let ghost s = text@;
    let mut start: usize = 0;
    while start < n && char_is_whitespace(cs[start])
        invariant
            cs@ == s,
            n == s.len(),
            start <= n,
            skip_white(s, start as int) == skip_white(s, 0),
        decreases n - start,
    {
        start = start + 1;
    }
    let mut end: usize = start;
    while end < n && !char_is_whitespace(cs[end])
        invariant
            cs@ == s,
            n == s.len(),
            start <= end <= n,
            skip_word(s, end as int) == skip_word(s, start as int),
        decreases n - end,
    {
        end = end + 1;
    }
    let word = text.substring_char(start, end);
    word.to_owned()
}

} // verus!
