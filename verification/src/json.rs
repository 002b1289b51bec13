//! The pieces an entry's JSON text is made of: JSON string literals, the
//! standard base64 alphabet, and the hyphenated form of a UUID.
use vstd::prelude::*;
use vstd::arithmetic::power2::{lemma2_to64, lemma_pow2_adds, lemma_pow2_pos, pow2};
use vstd::arithmetic::div_mod::{lemma_basic_div, lemma_div_denominator, lemma_fundamental_div_mod};
use base64::Engine;

verus! {

/// `serde_json::Error`, carried through and never inspected.
#[verifier::external_type_specification]
#[verifier::external_body]
pub struct ExJsonError(serde_json::Error);

/// A lower-case hexadecimal digit for `0 <= n < 16`.
pub open spec fn hex_lower(n: int) -> char {
    if n < 10 {
        ('0' as int + n) as char
    } else {
        ('a' as int + n - 10) as char
    }
}

/// How one character stands inside a JSON string literal written by
/// `serde_json`: quote and backslash are escaped, so are the control
/// characters below U+0020 (by their short form where JSON has one, else as
/// `\u00XX` in lower-case hex), and every other character stands as itself.
pub open spec fn json_escape(c: char) -> Seq<char> {
    if c == '"' {
        seq!['\\', '"']
    } else if c == '\\' {
        seq!['\\', '\\']
    } else if c == '\x08' {
        seq!['\\', 'b']
    } else if c == '\t' {
        seq!['\\', 't']
    } else if c == '\n' {
        seq!['\\', 'n']
    } else if c == '\x0C' {
        seq!['\\', 'f']
    } else if c == '\r' {
        seq!['\\', 'r']
    } else if (c as u32) < 0x20 {
        seq!['\\', 'u', '0', '0', hex_lower((c as u32) as int / 16), hex_lower((c as u32) as int % 16)]
    } else {
        seq![c]
    }
}

/// The escaped characters of a JSON string literal, without its quotes.
pub open spec fn json_escaped(s: Seq<char>) -> Seq<char>
    decreases s.len(),
{
    if s.len() == 0 {
        seq![]
    } else {
        json_escape(s[0]) + json_escaped(s.drop_first())
    }
}

/// The JSON string literal for `s`, quotes included.
pub open spec fn json_string(s: Seq<char>) -> Seq<char> {
    seq!['"'] + json_escaped(s) + seq!['"']
}

/// A character that stands for itself in a JSON string literal.
pub open spec fn json_plain(c: char) -> bool {
    &&& c != '"'
    &&& c != '\\'
    &&& (c as u32) >= 0x20
}

/// The character of the standard base64 alphabet for `0 <= n < 64`.
pub open spec fn base64_digit(n: int) -> char {
    if n < 26 {
        ('A' as int + n) as char
    } else if n < 52 {
        ('a' as int + n - 26) as char
    } else if n < 62 {
        ('0' as int + n - 52) as char
    } else if n == 62 {
        '+'
    } else {
        '/'
    }
}

/// Standard base64 with `=` padding: every three bytes become four digits,
/// and a last group of one or two bytes is padded to four characters.
pub open spec fn base64_standard(b: Seq<u8>) -> Seq<char>
    decreases b.len(),
{
    if b.len() == 0 {
        seq![]
    } else if b.len() == 1 {
        seq![base64_digit(b[0] as int / 4), base64_digit((b[0] as int % 4) * 16), '=', '=']
    } else if b.len() == 2 {
        seq![
            base64_digit(b[0] as int / 4),
            base64_digit((b[0] % 4) * 16 + b[1] / 16),
            base64_digit((b[1] % 16) * 4),
            '=',
        ]
    } else {
        seq![
            base64_digit(b[0] as int / 4),
            base64_digit((b[0] % 4) * 16 + b[1] / 16),
            base64_digit((b[1] % 16) * 4 + b[2] / 64),
            base64_digit(b[2] as int % 64),
        ] + base64_standard(b.skip(3))
    }
}

/// The longest input whose base64 text length, `4 * ceil(n / 3)`, fits in a
/// `usize`.
pub open spec fn base64_encodable(n: int) -> bool {
    (n + 2) / 3 * 4 <= usize::MAX
}

/// Hexadecimal digit `k` (counted from the most significant, `0 <= k < 32`)
/// of a 128-bit UUID.
pub open spec fn uuid_nibble(id: u128, k: int) -> int {
    (id as int / pow2((4 * (31 - k)) as nat) as int) % 16
}

/// Which hexadecimal digit stands at position `p` of the hyphenated form.
pub open spec fn uuid_digit_at(p: int) -> int {
    if p < 8 {
        p
    } else if p < 13 {
        p - 1
    } else if p < 18 {
        p - 2
    } else if p < 23 {
        p - 3
    } else {
        p - 4
    }
}

/// The hyphenated lower-case form of a UUID: 32 hexadecimal digits in groups
/// of 8, 4, 4, 4 and 12, joined by `-`.
pub open spec fn uuid_text(id: u128) -> Seq<char> {
    Seq::new(
        36,
        |p: int|
            if p == 8 || p == 13 || p == 18 || p == 23 {
                '-'
            } else {
                hex_lower(uuid_nibble(id, uuid_digit_at(p)))
            },
    )
}

/// Law: base64 text is four characters for every three bytes, a last short
/// group counting as a full one.
pub proof fn lemma_base64_len(b: Seq<u8>)
    ensures
        base64_standard(b).len() == (b.len() + 2) / 3 * 4,
    decreases b.len(),
{
    if b.len() >= 3 {
        lemma_base64_len(b.skip(3));
    }
}

/// Law: text with no quote, no backslash and no control character below
/// U+0020 stands in a JSON string literal unchanged.
pub proof fn lemma_json_plain_text(s: Seq<char>)
    requires
        forall|k: int| 0 <= k < s.len() ==> json_plain(#[trigger] s[k]),
    ensures
        json_escaped(s) == s,
        json_string(s) == seq!['"'] + s + seq!['"'],
    decreases s.len(),
{
    if s.len() > 0 {
        let c = s[0];
        assert(c != '"' && c != '\\' && (c as u32) >= 0x20);
        assert(c != '\x08' && c != '\t' && c != '\n' && c != '\x0C' && c != '\r');
        assert forall|k: int| 0 <= k < s.drop_first().len() implies json_plain(
            #[trigger] s.drop_first()[k],
        ) by {
            assert(s.drop_first()[k] == s[k + 1]);
        }
        lemma_json_plain_text(s.drop_first());
        assert(json_escaped(s) =~= s);
    }
}

/// Law: the text of a version-4 UUID shows the version digit `4` at position
/// 14 and a variant digit `8`, `9`, `a` or `b` at position 19.
pub proof fn lemma_v4_text(id: u128)
    requires
        uuid_nibble(id, 12) == 4,
        8 <= uuid_nibble(id, 16) < 12,
    ensures
        uuid_text(id).len() == 36,
        uuid_text(id)[14] == '4',
        uuid_text(id)[19] == '8' || uuid_text(id)[19] == '9' || uuid_text(id)[19] == 'a'
            || uuid_text(id)[19] == 'b',
{
    assert(uuid_digit_at(14) == 12);
    assert(uuid_digit_at(19) == 16);
}

/// Distinct hexadecimal digits are distinct characters.
proof fn lemma_hex_lower_injective(a: int, b: int)
    requires
        0 <= a < 16,
        0 <= b < 16,
        hex_lower(a) == hex_lower(b),
    ensures
        a == b,
{
    assert(hex_lower(a) as u32 == if a < 10 { 48 + a } else { 87 + a });
    assert(hex_lower(b) as u32 == if b < 10 { 48 + b } else { 87 + b });
}

/// Distinct base64 digit values are distinct characters, and none is `=`.
proof fn lemma_base64_digit_injective(a: int, b: int)
    requires
        0 <= a < 64,
        0 <= b < 64,
    ensures
        base64_digit(a) == base64_digit(b) ==> a == b,
        base64_digit(a) != '=',
{
    let ua = base64_digit(a) as u32;
    let ub = base64_digit(b) as u32;
    assert(ua == if a < 26 { 65 + a } else if a < 52 { 71 + a } else if a < 62 { a - 4 } else if a == 62 { 43 } else { 47 });
    assert(ub == if b < 26 { 65 + b } else if b < 52 { 71 + b } else if b < 62 { b - 4 } else if b == 62 { 43 } else { 47 });
}

/// Law: base64 text gives back its bytes: distinct byte sequences have
/// distinct base64 texts.
pub proof fn lemma_base64_injective(x: Seq<u8>, y: Seq<u8>)
    requires
        base64_standard(x) == base64_standard(y),
    ensures
        x == y,
    decreases x.len(),
{
    let t = base64_standard(x);
    lemma_base64_len(x);
    lemma_base64_len(y);
    if x.len() == 0 || y.len() == 0 {
        return;
    }
    let a0 = x[0] as int;
    let c0 = y[0] as int;
    lemma_base64_digit_injective(a0 / 4, c0 / 4);
    let a1 = if x.len() >= 2 { x[1] as int } else { 0 };
    let c1 = if y.len() >= 2 { y[1] as int } else { 0 };
    let a2 = if x.len() >= 3 { x[2] as int } else { 0 };
    let c2 = if y.len() >= 3 { y[2] as int } else { 0 };
    lemma_base64_digit_injective((a0 % 4) * 16 + a1 / 16, (c0 % 4) * 16 + c1 / 16);
    lemma_base64_digit_injective((a1 % 16) * 4 + a2 / 64, (c1 % 16) * 4 + c2 / 64);
    lemma_base64_digit_injective(a2 % 64, c2 % 64);
    lemma_base64_digit_injective((a1 % 16) * 4, (c1 % 16) * 4);
    lemma_base64_digit_injective((a1 % 16) * 4, (c1 % 16) * 4 + c2 / 64);
    lemma_base64_digit_injective((a1 % 16) * 4 + a2 / 64, (c1 % 16) * 4);
    lemma_base64_digit_injective((a0 % 4) * 16, (c0 % 4) * 16);
    lemma_base64_digit_injective((a0 % 4) * 16, (c0 % 4) * 16 + c1 / 16);
    lemma_base64_digit_injective((a0 % 4) * 16 + a1 / 16, (c0 % 4) * 16);
    assert(t[0] == base64_digit(a0 / 4));
    assert(base64_standard(y)[0] == base64_digit(c0 / 4));
    if x.len() >= 3 && y.len() >= 3 {
        assert(t[1] == base64_digit((a0 % 4) * 16 + a1 / 16));
        assert(t[2] == base64_digit((a1 % 16) * 4 + a2 / 64));
        assert(t[3] == base64_digit(a2 % 64));
        assert(x[0] == y[0] && x[1] == y[1] && x[2] == y[2]);
        assert(t.skip(4) =~= base64_standard(x.skip(3)));
        assert(base64_standard(y).skip(4) =~= base64_standard(y.skip(3)));
        lemma_base64_injective(x.skip(3), y.skip(3));
        assert(x =~= x.subrange(0, 3) + x.skip(3));
        assert(y =~= y.subrange(0, 3) + y.skip(3));
        assert(x.subrange(0, 3) =~= y.subrange(0, 3));
    } else {
        assert(x.len() == y.len() || (x.len() <= 3 && y.len() <= 3));
        if x.len() == 1 && y.len() == 1 {
            assert(x =~= y);
        } else if x.len() == 2 && y.len() == 2 {
            assert(x =~= y);
        } else {
            assert(t[2] != base64_standard(y)[2] || t[3] != base64_standard(y)[3]);
        }
    }
}

/// No escaped character starts with a quote, and the escape of a character
/// gives the character back: two escapes that open the same text are the
/// escapes of one character.
proof fn lemma_escape_prefix_free(c: char, d: char, x: Seq<char>, y: Seq<char>)
    requires
        json_escape(c) + x == json_escape(d) + y,
    ensures
        c == d,
        x == y,
        json_escape(c)[0] != '"',
{
    let ec = json_escape(c);
    let ed = json_escape(d);
    let l = ec + x;
    assert(l[0] == ec[0]);
    assert((ed + y)[0] == ed[0]);
    if ec.len() >= 2 && ed.len() >= 2 {
        assert(l[1] == ec[1]);
        assert((ed + y)[1] == ed[1]);
    }
    if ec.len() == 6 && ed.len() == 6 {
        assert(l[4] == ec[4]);
        assert(l[5] == ec[5]);
        assert((ed + y)[4] == ed[4]);
        assert((ed + y)[5] == ed[5]);
        let n = (c as u32) as int;
        let m = (d as u32) as int;
        lemma_hex_lower_injective(n / 16, m / 16);
        lemma_hex_lower_injective(n % 16, m % 16);
        assert(n == m);
    }
    if ec.len() == 1 && ed.len() == 2 {
        assert(false);
    }
    if ec.len() == 2 && ed.len() == 1 {
        assert(false);
    }
    if ec.len() == 1 && ed.len() == 6 {
        assert(false);
    }
    if ec.len() == 6 && ed.len() == 1 {
        assert(false);
    }
    if ec.len() == 2 && ed.len() == 6 {
        assert(ed[1] == 'u');
        assert(false);
    }
    if ec.len() == 6 && ed.len() == 2 {
        assert(ec[1] == 'u');
        assert(false);
    }
    assert(ec == ed);
    assert(x =~= l.skip(ec.len() as int));
    assert(y =~= (ed + y).skip(ed.len() as int));
}

/// Law: the escaped text of a JSON string literal ends where the first
/// unescaped quote stands, and gives its text back.
pub proof fn lemma_json_escaped_parse(s: Seq<char>, t: Seq<char>, x: Seq<char>, y: Seq<char>)
    requires
        json_escaped(s) + x == json_escaped(t) + y,
        x.len() > 0 && x[0] == '"',
        y.len() > 0 && y[0] == '"',
    ensures
        s == t,
        x == y,
    decreases s.len() + t.len(),
{
    if s.len() == 0 && t.len() == 0 {
        assert(json_escaped(s) + x =~= x);
        assert(json_escaped(t) + y =~= y);
    } else if s.len() == 0 {
        assert(json_escaped(s) + x =~= x);
        assert(json_escaped(t) + y =~= json_escape(t[0]) + (json_escaped(t.drop_first()) + y));
        lemma_escape_prefix_free(t[0], t[0], json_escaped(t.drop_first()) + y, json_escaped(t.drop_first()) + y);
        assert((json_escape(t[0]) + (json_escaped(t.drop_first()) + y))[0] == json_escape(t[0])[0]);
    } else if t.len() == 0 {
        assert(json_escaped(t) + y =~= y);
        assert(json_escaped(s) + x =~= json_escape(s[0]) + (json_escaped(s.drop_first()) + x));
        lemma_escape_prefix_free(s[0], s[0], json_escaped(s.drop_first()) + x, json_escaped(s.drop_first()) + x);
        assert((json_escape(s[0]) + (json_escaped(s.drop_first()) + x))[0] == json_escape(s[0])[0]);
    } else {
        assert(json_escaped(s) + x =~= json_escape(s[0]) + (json_escaped(s.drop_first()) + x));
        assert(json_escaped(t) + y =~= json_escape(t[0]) + (json_escaped(t.drop_first()) + y));
        lemma_escape_prefix_free(s[0], t[0], json_escaped(s.drop_first()) + x, json_escaped(t.drop_first()) + y);
        lemma_json_escaped_parse(s.drop_first(), t.drop_first(), x, y);
        assert(s =~= seq![s[0]] + s.drop_first());
        assert(t =~= seq![t[0]] + t.drop_first());
    }
}

/// The value of the first `32 - j` hexadecimal digits of a UUID.
spec fn uuid_digits_above(id: u128, j: nat) -> int {
    id as int / pow2(4 * j) as int
}

/// Digits above `j` are the digits above `j + 1` followed by digit `31 - j`.
proof fn lemma_uuid_digit_step(id: u128, j: nat)
    requires
        j < 32,
    ensures
        uuid_digits_above(id, j) == uuid_digits_above(id, j + 1) * 16 + uuid_nibble(id, 31 - j),
{
    lemma_pow2_adds(4 * j, 4);
    lemma2_to64();
    lemma_pow2_pos(4 * j);
    assert(4 * (j + 1) == 4 * j + 4);
    assert(4 * (31 - (31 - j)) == 4 * j);
    let p = pow2(4 * j) as int;
    lemma_div_denominator(id as int, p, 16);
    lemma_fundamental_div_mod(id as int / p, 16);
}

/// UUIDs whose digits all agree agree on every run of leading digits.
proof fn lemma_uuid_digits_agree(a: u128, b: u128, j: nat)
    requires
        j <= 32,
        forall|k: int| 0 <= k < 32 ==> #[trigger] uuid_nibble(a, k) == uuid_nibble(b, k),
    ensures
        uuid_digits_above(a, j) == uuid_digits_above(b, j),
    decreases 32 - j,
{
    if j == 32 {
        lemma2_to64();
        lemma_pow2_adds(64, 64);
        assert(pow2(128) == 0x10000000000000000 * 0x10000000000000000);
        assert(4 * j == 128);
        lemma_basic_div(a as int, pow2(128) as int);
        lemma_basic_div(b as int, pow2(128) as int);
    } else {
        lemma_uuid_digits_agree(a, b, j + 1);
        lemma_uuid_digit_step(a, j);
        lemma_uuid_digit_step(b, j);
        assert(uuid_nibble(a, 31 - j) == uuid_nibble(b, 31 - j));
    }
}

/// Law: the text of a UUID gives the UUID back: distinct UUIDs have
/// distinct texts.
pub proof fn lemma_uuid_text_injective(a: u128, b: u128)
    requires
        uuid_text(a) == uuid_text(b),
    ensures
        a == b,
{
    assert forall|k: int| 0 <= k < 32 implies #[trigger] uuid_nibble(a, k) == uuid_nibble(b, k) by {
        let p = if k < 8 { k } else if k < 12 { k + 1 } else if k < 16 { k + 2 } else if k < 20 { k + 3 } else { k + 4 };
        assert(uuid_digit_at(p) == k);
        assert(uuid_text(a)[p] == hex_lower(uuid_nibble(a, k)));
        assert(uuid_text(b)[p] == hex_lower(uuid_nibble(b, k)));
        lemma_pow2_pos((4 * (31 - k)) as nat);
        lemma_hex_lower_injective(uuid_nibble(a, k), uuid_nibble(b, k));
    }
    lemma_uuid_digits_agree(a, b, 0);
    lemma2_to64();
    assert(4 * 0nat == 0);
}

/// Base64 text holds only alphabet digits and `=`, none of which JSON
/// escapes.
pub proof fn lemma_base64_plain(b: Seq<u8>)
    ensures
        forall|k: int| 0 <= k < base64_standard(b).len() ==> json_plain(#[trigger] base64_standard(b)[k]),
    decreases b.len(),
{
    assert forall|n: int| 0 <= n < 64 implies json_plain(#[trigger] base64_digit(n)) by {
        lemma_base64_digit_injective(n, n);
        assert(base64_digit(n) as u32 == if n < 26 { 65 + n } else if n < 52 { 71 + n } else if n < 62 { n - 4 } else if n == 62 { 43 } else { 47 });
    }
    if b.len() >= 3 {
        lemma_base64_plain(b.skip(3));
        let t = base64_standard(b);
        let head = seq![
            base64_digit(b[0] as int / 4),
            base64_digit((b[0] as int % 4) * 16 + b[1] / 16),
            base64_digit((b[1] % 16) * 4 + b[2] / 64),
            base64_digit(b[2] as int % 64),
        ];
        assert(t == head + base64_standard(b.skip(3)));
        assert forall|k: int| 0 <= k < t.len() implies json_plain(#[trigger] t[k]) by {
            if k < 4 {
                assert(t[k] == head[k]);
            } else {
                assert(t[k] == base64_standard(b.skip(3))[k - 4]);
            }
        }
    }
}

/// The text of a UUID holds only lower-case hexadecimal digits and `-`, none
/// of which JSON escapes.
pub proof fn lemma_uuid_text_plain(id: u128)
    ensures
        uuid_text(id).len() == 36,
        forall|k: int| 0 <= k < 36 ==> json_plain(#[trigger] uuid_text(id)[k]),
{
    assert forall|k: int| 0 <= k < 36 implies json_plain(#[trigger] uuid_text(id)[k]) by {
        if !(k == 8 || k == 13 || k == 18 || k == 23) {
            let n = uuid_nibble(id, uuid_digit_at(k));
            assert(0 <= n < 16);
            assert(hex_lower(n) as u32 == if n < 10 { 48 + n } else { 87 + n });
        }
    }
}

/// Calls `serde_json::to_string` on a string slice.
/// Claimed: the result is `Ok` with the JSON string literal of the text as
/// `json_string` spells it. The source writes a `str` through
/// `format_escaped_str` into a `Vec<u8>`, whose writes do not fail, with the
/// `ESCAPE` table that `json_escape` restates.
#[verifier::external_body]
pub(crate) fn to_json_string(s: &str) -> (r: Result<String, serde_json::Error>)
    ensures
        r is Ok,
        r.unwrap()@ == json_string(s@),
{
    serde_json::to_string(s)
}

/// Calls `Engine::encode` of `base64::engine::general_purpose::STANDARD`.
/// Claimed: the text is the padded standard base64 of the bytes. The call
/// panics when the text length would overflow a `usize`, which `requires`
/// leaves out.
#[verifier::external_body]
pub(crate) fn to_base64(bytes: &[u8]) -> (text: String)
    requires
        base64_encodable(bytes@.len() as int),
    ensures
        text@ == base64_standard(bytes@),
{
    base64::engine::general_purpose::STANDARD.encode(bytes)
}

/// Calls `Uuid::from_u128` and `Hyphenated`'s `to_string`.
/// Claimed: the text is the hyphenated lower-case form of the 128-bit value,
/// taken big-endian as `from_u128` documents.
#[verifier::external_body]
pub(crate) fn uuid_hyphenated(id: u128) -> (text: String)
    ensures
        text@ == uuid_text(id),
{
    uuid::Uuid::from_u128(id).hyphenated().to_string()
}

/// Calls `Uuid::new_v4` and takes its 128-bit value.
/// Claimed: the version digit is 4 and the variant digit is one of 8, 9, a,
/// b, which `new_v4` sets by masking; the other bits are random and nothing
/// is said of them.
#[verifier::external_body]
pub(crate) fn new_v4_id() -> (id: u128)
    ensures
        uuid_nibble(id, 12) == 4,
        8 <= uuid_nibble(id, 16) < 12,
{
    uuid::Uuid::new_v4().as_u128()
}

} // verus!
