//! Verified string primitives: case-insensitive comparison against ASCII
//! targets, substring search, decimal rendering, and UTF-8 decoding.
//!
//! The heuristics in this crate compare lowercased names and units against
//! fixed ASCII keywords.  Lowercasing is modeled per character on the ASCII
//! range (`'A'..='Z'` map 32 code points up, everything else is untouched),
//! which coincides with Unicode lowercasing on every keyword this crate
//! matches against.

use vstd::prelude::*;

verus! {

/// Code point of `c` after ASCII lowercasing.
pub open spec fn ascii_lower(c: char) -> u32 {
    if 65 <= c as u32 && c as u32 <= 90 {
        (c as u32 + 32) as u32
    } else {
        c as u32
    }
}

/// `s`, ASCII-lowercased, equals the (already lowercase) target `t`.
pub open spec fn lower_eq(s: Seq<char>, t: Seq<char>) -> bool {
    s.len() == t.len() && (forall|i: int| 0 <= i < s.len() ==> ascii_lower(s[i]) == t[i] as u32)
}

/// The pattern `p` occurs in `s` at offset `k`.
pub open spec fn match_at(s: Seq<char>, p: Seq<char>, k: int) -> bool {
    forall|j: int| 0 <= j < p.len() ==> s[k + j] == p[j]
}

/// `p` occurs somewhere in `s` (case-sensitive).
pub open spec fn contains_seq(s: Seq<char>, p: Seq<char>) -> bool {
    exists|k: int| 0 <= k && k + p.len() <= s.len() && match_at(s, p, k)
}

/// The pattern `p` occurs at offset `k` of `s` after ASCII-lowercasing `s`.
pub open spec fn lower_match_at(s: Seq<char>, p: Seq<char>, k: int) -> bool {
    forall|j: int| 0 <= j < p.len() ==> ascii_lower(s[k + j]) == p[j] as u32
}

/// `p` occurs somewhere in `s` after ASCII-lowercasing `s`.
pub open spec fn lower_contains(s: Seq<char>, p: Seq<char>) -> bool {
    exists|k: int| 0 <= k && k + p.len() <= s.len() && lower_match_at(s, p, k)
}

/// Whether `s@ == t@`, decided character by character.
pub fn str_eq(s: &str, t: &str) -> (r: bool)
    ensures
        r == (s@ == t@),
{
    let n = s.unicode_len();
    let m = t.unicode_len();
    if n != m {
        proof {
            assert(s@ != t@) by {
                assert(s@.len() != t@.len());
            }
        }
        return false;
    }
    let mut i: usize = 0;
    while i < n
        invariant
            n == s@.len(),
            n == t@.len(),
            i <= n,
            forall|j: int| 0 <= j < i ==> s@[j] == t@[j],
        decreases n - i,
    {
        if s.get_char(i) != t.get_char(i) {
            return false;
        }
        i = i + 1;
    }
    proof {
        assert(s@ =~= t@);
    }
    true
}

/// Whether `s`, ASCII-lowercased, equals the lowercase target `t`.
pub fn eq_lowered(s: &str, t: &str) -> (r: bool)
    ensures
        r == lower_eq(s@, t@),
{
    let n = s.unicode_len();
    let m = t.unicode_len();
    if n != m {
        return false;
    }
    let mut i: usize = 0;
    while i < n
        invariant
            n == s@.len(),
            n == t@.len(),
            i <= n,
            forall|j: int| 0 <= j < i ==> ascii_lower(s@[j]) == t@[j] as u32,
        decreases n - i,
    {
        let a = s.get_char(i) as u32;
        let la = if 65 <= a && a <= 90 {
            a + 32
        } else {
            a
        };
        let b = t.get_char(i) as u32;
        if la != b {
            return false;
        }
        i = i + 1;
    }
    true
}

/// Whether `p` occurs in `s` (case-sensitive).
pub fn contains_sub(s: &str, p: &str) -> (r: bool)
    ensures
        r == contains_seq(s@, p@),
{
    let n = s.unicode_len();
    let m = p.unicode_len();
    if m > n {
        return false;
    }
    let mut k: usize = 0;
    while k <= n - m
        invariant
            n == s@.len(),
            m == p@.len(),
            m <= n,
            k <= n - m + 1,
            forall|k2: int| 0 <= k2 < k ==> !match_at(s@, p@, k2),
        decreases n - m - k + 1,
    {
        let mut j: usize = 0;
        let mut same = true;
        while j < m
            invariant
                n == s@.len(),
                m == p@.len(),
                m <= n,
                k + m <= n,
                j <= m,
                same ==> forall|j2: int| 0 <= j2 < j ==> s@[k + j2] == p@[j2],
                !same ==> !match_at(s@, p@, k as int),
            decreases m - j,
        {
            if s.get_char(k + j) != p.get_char(j) {
                proof {
                    assert(s@[k + j] != p@[j as int]);
                }
                same = false;
                j = m;
            } else {
                j = j + 1;
            }
        }
        if same {
            proof {
                assert(match_at(s@, p@, k as int));
            }
            return true;
        }
        k = k + 1;
    }
    false
}

/// Whether `p` occurs in `s` after ASCII-lowercasing `s`.
pub fn contains_lowered(s: &str, p: &str) -> (r: bool)
    ensures
        r == lower_contains(s@, p@),
{
    let n = s.unicode_len();
    let m = p.unicode_len();
    if m > n {
        return false;
    }
    let mut k: usize = 0;
    while k <= n - m
        invariant
            n == s@.len(),
            m == p@.len(),
            m <= n,
            k <= n - m + 1,
            forall|k2: int| 0 <= k2 < k ==> !lower_match_at(s@, p@, k2),
        decreases n - m - k + 1,
    {
        let mut j: usize = 0;
        let mut same = true;
        while j < m
            invariant
                n == s@.len(),
                m == p@.len(),
                m <= n,
                k + m <= n,
                j <= m,
                same ==> forall|j2: int| 0 <= j2 < j ==> ascii_lower(s@[k + j2]) == p@[j2] as u32,
                !same ==> !lower_match_at(s@, p@, k as int),
            decreases m - j,
        {
            let a = s.get_char(k + j) as u32;
            let la = if 65 <= a && a <= 90 {
                a + 32
            } else {
                a
            };
            if la != p.get_char(j) as u32 {
                proof {
                    assert(ascii_lower(s@[k + j]) != p@[j as int] as u32);
                }
                same = false;
                j = m;
            } else {
                j = j + 1;
            }
        }
        if same {
            proof {
                assert(lower_match_at(s@, p@, k as int));
            }
            return true;
        }
        k = k + 1;
    }
    false
}

/// The character carrying decimal digit `d`.
pub open spec fn digit_char(d: int) -> char {
    ((48 + d) as u8) as char
}

/// Decimal rendering of a non-negative integer, most significant digit first.
pub open spec fn dec_str(n: int) -> Seq<char>
    decreases n,
{
    if n < 10 {
        seq![digit_char(if n < 0 { 0 } else { n })]
    } else {
        dec_str(n / 10).push(digit_char(n % 10))
    }
}

/// Decimal rendering of a signed integer: a leading `'-'` when negative.
pub open spec fn dec_str_signed(v: int) -> Seq<char> {
    if v < 0 {
        seq!['-'].add(dec_str(-v))
    } else {
        dec_str(v)
    }
}

/// Names what `String::from_utf8_lossy` decodes a byte sequence to.
pub uninterp spec fn utf8_lossy_of(bytes: Seq<u8>) -> Seq<char>;

/// Relies on `String::from_utf8_lossy`: valid UTF-8 decodes to exactly its
/// scalar values (so ASCII bytes decode to themselves); invalid sequences are
/// replaced with U+FFFD, which only `utf8_lossy_of` describes.
#[verifier::external_body]
pub fn utf8_lossy(bytes: &Vec<u8>) -> (r: String)
    ensures
        r@ == utf8_lossy_of(bytes@),
        vstd::utf8::valid_utf8(bytes@) ==> r@ == vstd::utf8::decode_utf8(bytes@),
        (forall|i: int| 0 <= i < bytes@.len() ==> bytes@[i] < 0x80) ==> r@ == Seq::new(
            bytes@.len(),
            |i: int| bytes@[i] as char,
        ),
{
    String::from_utf8_lossy(bytes).into_owned()
}

/// The UTF-8 (ASCII) bytes of a sequence of ASCII characters.
pub open spec fn ascii_bytes(s: Seq<char>) -> Seq<u8> {
    Seq::new(s.len(), |i: int| s[i] as u8)
}

/// Every character of a decimal rendering is an ASCII digit character.
proof fn lemma_dec_str_digits(n: int, i: int)
    requires
        0 <= i < dec_str(n).len(),
    ensures
        dec_str(n)[i] as u8 as char == dec_str(n)[i],
        (dec_str(n)[i] as u8) < 0x80,
    decreases n,
{
    assert(forall|d: int|
        0 <= d < 10 ==> #[trigger] digit_char(d) as u8 as char == digit_char(d) && (digit_char(d)
            as u8) < 0x80);
    if n < 10 {
        let d = if n < 0 { 0 } else { n };
        assert(dec_str(n) =~= seq![digit_char(d)]);
    } else {
        assert(dec_str(n) =~= dec_str(n / 10).push(digit_char(n % 10)));
        if i < dec_str(n / 10).len() {
            lemma_dec_str_digits(n / 10, i);
        } else {
            assert(dec_str(n)[i] == digit_char(n % 10));
        }
    }
}

/// Digit bytes of `n`, most significant first, written after `acc`.
fn push_dec_bytes(acc: &mut Vec<u8>, n: u64)
    ensures
        final(acc)@ == old(acc)@ + ascii_bytes(dec_str(n as int)),
    decreases n,
{
    proof {
        assert(forall|d: int|
            0 <= d < 10 ==> #[trigger] digit_char(d) as u8 == 48 + d);
    }
    if n < 10 {
        acc.push(48 + (n as u8));
        proof {
            assert(dec_str(n as int) =~= seq![digit_char(n as int)]);
            assert(digit_char(n as int) as u8 == 48 + n);
            assert(acc@ =~= old(acc)@ + ascii_bytes(dec_str(n as int)));
        }
    } else {
        push_dec_bytes(acc, n / 10);
        acc.push(48 + ((n % 10) as u8));
        proof {
            assert(dec_str(n as int) =~= dec_str(n as int / 10).push(digit_char(n as int % 10)));
            assert(digit_char(n as int % 10) as u8 == 48 + (n as int % 10));
            assert(acc@ =~= old(acc)@ + ascii_bytes(dec_str(n as int)));
        }
    }
}

/// The characters a run of ASCII digit (and `'-'`) bytes decodes back to.
proof fn lemma_ascii_roundtrip(cs: Seq<char>)
    requires
        forall|i: int| 0 <= i < cs.len() ==> (cs[i] as u8) < 0x80 && cs[i] as u8 as char == cs[i],
    ensures
        forall|i: int| 0 <= i < ascii_bytes(cs).len() ==> ascii_bytes(cs)[i] < 0x80,
        Seq::new(ascii_bytes(cs).len(), |i: int| ascii_bytes(cs)[i] as char) =~= cs,
{
}

/// Decimal rendering of `n` as a string.
pub fn dec_string_u64(n: u64) -> (r: String)
    ensures
        r@ == dec_str(n as int),
{
    let mut bytes: Vec<u8> = Vec::new();
    push_dec_bytes(&mut bytes, n);
    proof {
        assert forall|i: int| 0 <= i < dec_str(n as int).len() implies (dec_str(n as int)[i]
            as u8) < 0x80 && dec_str(n as int)[i] as u8 as char == dec_str(n as int)[i] by {
            lemma_dec_str_digits(n as int, i);
        }
        lemma_ascii_roundtrip(dec_str(n as int));
        assert(bytes@ =~= ascii_bytes(dec_str(n as int)));
    }
    let r = utf8_lossy(&bytes);
    proof {
        assert(r@ =~= dec_str(n as int));
    }
    r
}

/// Decimal rendering of a `usize`.
pub fn dec_string_usize(n: usize) -> (r: String)
    ensures
        r@ == dec_str(n as int),
{
    dec_string_u64(n as u64)
}

/// Decimal rendering of a signed integer, with a leading `'-'` when negative.
pub fn dec_string_i64(v: i64) -> (r: String)
    ensures
        r@ == dec_str_signed(v as int),
{
    if v < 0 {
        let mag: u64 = if v == i64::MIN {
            9223372036854775808u64
        } else {
            (-v) as u64
        };
        assert(mag == -(v as int));
        let mut bytes: Vec<u8> = Vec::new();
        bytes.push(45);
        push_dec_bytes(&mut bytes, mag);
        let ghost want = seq!['-'].add(dec_str(mag as int));
        proof {
            assert('-' as u8 == 45 && 45u8 as char == '-');
            assert forall|i: int| 0 <= i < want.len() implies (want[i] as u8) < 0x80 && want[i]
                as u8 as char == want[i] by {
                if i > 0 {
                    lemma_dec_str_digits(mag as int, i - 1);
                }
            }
            lemma_ascii_roundtrip(want);
            assert(bytes@ =~= ascii_bytes(want));
        }
        let r = utf8_lossy(&bytes);
        proof {
            assert(r@ =~= want);
            assert(dec_str_signed(v as int) =~= want);
        }
        r
    } else {
        dec_string_u64(v as u64)
    }
}

} // verus!
