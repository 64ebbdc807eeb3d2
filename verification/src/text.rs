//! Byte-level text helpers shared by the parsers of this crate.
//!
//! Contracts are stated over the UTF-8 byte view of strings
//! (`str::spec_bytes`), so every helper here is an ordinary verified
//! function on byte sequences.

use vstd::prelude::*;

verus! {

use vstd::string::StrSliceExecFns;
use vstd::utf8::encode_utf8;

/// Byte view of a character sequence, used to connect `String` views to
/// the byte-level specifications below.
pub open spec fn sbytes(s: Seq<char>) -> Seq<u8> {
    encode_utf8(s)
}

/// Byte views of a sequence of lines.
pub open spec fn lines_bytes(lines: Seq<String>) -> Seq<Seq<u8>> {
    lines.map_values(|l: String| sbytes(l@))
}

pub open spec fn is_ascii_space(b: u8) -> bool {
    b == 32 || b == 9 || b == 10 || b == 12 || b == 13
}

pub open spec fn is_space_char(c: char) -> bool {
    c == ' ' || c == '\t' || c == '\n' || c == '\u{c}' || c == '\r'
}

/// Index of the first non-whitespace character at or after `i`.
pub open spec fn skip_spaces_chars(s: Seq<char>, i: int) -> int
    decreases s.len() - i,
{
    if i < 0 || i >= s.len() {
        i
    } else if is_space_char(s[i]) {
        skip_spaces_chars(s, i + 1)
    } else {
        i
    }
}

/// Index of the first whitespace character at or after `i`.
pub open spec fn token_end_chars(s: Seq<char>, i: int) -> int
    decreases s.len() - i,
{
    if i < 0 || i >= s.len() {
        i
    } else if !is_space_char(s[i]) {
        token_end_chars(s, i + 1)
    } else {
        i
    }
}

/// The first whitespace-separated token of `s`, as characters.
pub open spec fn first_token_chars(s: Seq<char>) -> Seq<char> {
    s.subrange(skip_spaces_chars(s, 0), token_end_chars(s, skip_spaces_chars(s, 0)))
}

/// `s` holds at least one token.
pub open spec fn has_token_chars(s: Seq<char>) -> bool {
    skip_spaces_chars(s, 0) < s.len()
}

/// The first whitespace-separated token of a line, the way a stage
/// header carries its name.
pub fn first_token(s: &str) -> (r: String)
    requires
        has_token_chars(s@),
    ensures
        r@ == first_token_chars(s@),
{
    let ulen = s.unicode_len();
    let mut a: usize = 0;
    let mut go: bool = true;
    while go
        invariant
            0 <= a <= ulen,
            ulen == s@.len(),
            has_token_chars(s@),
            skip_spaces_chars(s@, 0) == skip_spaces_chars(s@, a as int),
            !go ==> skip_spaces_chars(s@, a as int) == a && a < ulen,
        decreases ulen - a + (if go { 1int } else { 0int }),
    {
        if a < ulen {
            let c = s.get_char(a);
            if c == ' ' || c == '\t' || c == '\n' || c == '\u{c}' || c == '\r' {
                a = a + 1;
            } else {
                go = false;
            }
        } else {
            go = false;
        }
    }
    let mut j: usize = a;
    let mut go2: bool = true;
    while go2
        invariant
            a <= j <= ulen,
            ulen == s@.len(),
            token_end_chars(s@, a as int) == token_end_chars(s@, j as int),
            !go2 ==> token_end_chars(s@, j as int) == j,
        decreases ulen - j + (if go2 { 1int } else { 0int }),
    {
        if j < ulen {
            let c = s.get_char(j);
            if c == ' ' || c == '\t' || c == '\n' || c == '\u{c}' || c == '\r' {
                go2 = false;
            } else {
                j = j + 1;
            }
        } else {
            go2 = false;
        }
    }
    let piece = s.substring_char(a, j);
    piece.to_owned()
}

pub open spec fn is_digit_byte(b: u8) -> bool {
    48 <= b <= 57
}

pub open spec fn all_digits(s: Seq<u8>) -> bool {
    forall|i: int| 0 <= i < s.len() ==> is_digit_byte(#[trigger] s[i])
}

/// Value of a digit string, accumulated left to right.
pub open spec fn digits_val_from(s: Seq<u8>, acc: int) -> int
    decreases s.len(),
{
    if s.len() == 0 {
        acc
    } else {
        digits_val_from(s.drop_first(), acc * 10 + (s[0] - 48))
    }
}

pub open spec fn digits_val(s: Seq<u8>) -> int {
    digits_val_from(s, 0)
}

/// A token is accepted by `parse_usize` exactly when it is a non-empty
/// run of decimal digits whose value fits in `usize`.
pub open spec fn parses_to_usize(s: Seq<u8>) -> bool {
    s.len() > 0 && all_digits(s) && digits_val(s) <= usize::MAX
}

proof fn lemma_digits_val_from_grows(s: Seq<u8>, acc: int)
    requires
        all_digits(s),
        acc >= 0,
    ensures
        digits_val_from(s, acc) >= acc,
    decreases s.len(),
{
    if s.len() > 0 {
        assert(is_digit_byte(s[0]));
        assert(all_digits(s.drop_first())) by {
            assert(forall|i: int|
                0 <= i < s.drop_first().len() ==> #[trigger] s.drop_first()[i] == s[i + 1]);
        }
        lemma_digits_val_from_grows(s.drop_first(), acc * 10 + (s[0] - 48));
    }
}

/// The value of a digit string is never negative.
pub proof fn lemma_digits_val_nonneg(s: Seq<u8>)
    requires
        all_digits(s),
    ensures
        digits_val(s) >= 0,
{
    lemma_digits_val_from_grows(s, 0);
}

/// Parses a non-empty all-digit byte string into a `usize`; rejects
/// anything else, including values that do not fit.
pub fn parse_usize(s: &[u8]) -> (r: Option<usize>)
    ensures
        parses_to_usize(s@) ==> r == Some(digits_val(s@) as usize),
        !parses_to_usize(s@) ==> r is None,
{
    if s.len() == 0 {
        return None;
    }
    let mut acc: u128 = 0;
    let mut i: usize = 0;
    proof {
        assert(s@.skip(0) =~= s@);
    }
    while i < s.len()
        invariant
            0 <= i <= s@.len(),
            acc <= usize::MAX as u128,
            all_digits(s@.take(i as int)),
            digits_val(s@) == digits_val_from(s@.skip(i as int), acc as int),
        decreases s@.len() - i,
    {
        let b = s[i];
        if b < 48 || b > 57 {
            assert(!all_digits(s@)) by {
                assert(s@[i as int] == b);
            }
            return None;
        }
        let d: u128 = (b - 48) as u128;
        let next: u128 = acc * 10 + d;
        proof {
            assert(s@.skip(i as int)[0] == s@[i as int]);
            assert(s@.skip(i as int).drop_first() =~= s@.skip(i as int + 1));
            assert(digits_val_from(s@.skip(i as int), acc as int)
                == digits_val_from(s@.skip(i as int + 1), acc as int * 10 + (b - 48)));
            assert(s@.take(i as int + 1).drop_last() =~= s@.take(i as int));
            assert(s@.take(i as int + 1)[i as int] == b);
        }
        if next > usize::MAX as u128 {
            proof {
                if all_digits(s@) {
                    assert(all_digits(s@.skip(i as int + 1))) by {
                        assert(forall|k: int|
                            0 <= k < s@.skip(i as int + 1).len()
                                ==> #[trigger] s@.skip(i as int + 1)[k] == s@[k + i + 1]);
                    }
                    lemma_digits_val_from_grows(s@.skip(i as int + 1), next as int);
                }
            }
            return None;
        }
        acc = next;
        i = i + 1;
    }
    proof {
        assert(s@.take(s@.len() as int) =~= s@);
        assert(s@.skip(s@.len() as int) =~= Seq::<u8>::empty());
    }
    Some(acc as usize)
}

/// A token is accepted by `parse_u32` exactly when it is a non-empty
/// run of decimal digits whose value fits in `u32`.
pub open spec fn parses_to_u32(s: Seq<u8>) -> bool {
    s.len() > 0 && all_digits(s) && digits_val(s) <= u32::MAX
}

/// Parses a non-empty all-digit byte string into a `u32`.
pub fn parse_u32(s: &[u8]) -> (r: Option<u32>)
    ensures
        parses_to_u32(s@) ==> r == Some(digits_val(s@) as u32),
        !parses_to_u32(s@) ==> r is None,
{
    proof {
        if s@.len() > 0 && all_digits(s@) {
            lemma_digits_val_nonneg(s@);
        }
    }
    match parse_usize(s) {
        Some(v) => {
            if v <= u32::MAX as usize {
                Some(v as u32)
            } else {
                None
            }
        },
        None => None,
    }
}

/// A token is accepted by `parse_i32` exactly when it is an optional
/// leading minus sign followed by digits, with the value in `i32`.
pub open spec fn parses_to_i32(s: Seq<u8>) -> bool {
    if s.len() > 0 && s[0] == 45 {
        let d = s.drop_first();
        d.len() > 0 && all_digits(d) && -digits_val(d) >= i32::MIN
    } else {
        s.len() > 0 && all_digits(s) && digits_val(s) <= i32::MAX
    }
}

/// The signed value of a numeral with an optional leading minus sign.
pub open spec fn signed_val(s: Seq<u8>) -> int {
    if s.len() > 0 && s[0] == 45 {
        -digits_val(s.drop_first())
    } else {
        digits_val(s)
    }
}

/// Parses an optionally negated numeral into an `i32`.
pub fn parse_i32(s: &[u8]) -> (r: Option<i32>)
    ensures
        parses_to_i32(s@) ==> (r matches Some(v) && v as int == signed_val(s@)),
        !parses_to_i32(s@) ==> r is None,
{
    if s.len() > 0 && s[0] == 45 {
        let (_, rest) = s.split_at(1);
        proof {
            assert(rest@ =~= s@.drop_first());
        }
        proof {
            if rest@.len() > 0 && all_digits(rest@) {
                lemma_digits_val_nonneg(rest@);
            }
        }
        match parse_usize(rest) {
            Some(v) => {
                if v <= 2147483648 {
                    let neg: i64 = -(v as i64);
                    Some(neg as i32)
                } else {
                    None
                }
            },
            None => None,
        }
    } else {
        proof {
            if s@.len() > 0 && all_digits(s@) {
                lemma_digits_val_nonneg(s@);
            }
        }
        match parse_usize(s) {
            Some(v) => {
                if v <= i32::MAX as usize {
                    Some(v as i32)
                } else {
                    None
                }
            },
            None => None,
        }
    }
}

/// Exact equality of two byte strings.
pub fn bytes_eq(a: &[u8], b: &[u8]) -> (r: bool)
    ensures
        r <==> a@ == b@,
{
    if a.len() != b.len() {
        proof {
            assert(a@.len() != b@.len());
        }
        return false;
    }
    let mut i: usize = 0;
    while i < a.len()
        invariant
            0 <= i <= a@.len(),
            a@.len() == b@.len(),
            forall|k: int| 0 <= k < i ==> a@[k] == b@[k],
        decreases a@.len() - i,
    {
        if a[i] != b[i] {
            return false;
        }
        i = i + 1;
    }
    proof {
        assert(a@ =~= b@);
    }
    true
}

/// Whitespace-separated tokens of a line, accumulated left to right;
/// `cur` is the token being read.
pub open spec fn tokens_from(s: Seq<u8>, cur: Seq<u8>) -> Seq<Seq<u8>>
    decreases s.len(),
{
    if s.len() == 0 {
        if cur.len() > 0 {
            seq![cur]
        } else {
            Seq::empty()
        }
    } else if is_ascii_space(s[0]) {
        if cur.len() > 0 {
            seq![cur] + tokens_from(s.drop_first(), Seq::empty())
        } else {
            tokens_from(s.drop_first(), Seq::empty())
        }
    } else {
        tokens_from(s.drop_first(), cur.push(s[0]))
    }
}

/// The ASCII-whitespace-separated tokens of `s`.
pub open spec fn spec_tokens(s: Seq<u8>) -> Seq<Seq<u8>> {
    tokens_from(s, Seq::empty())
}

pub open spec fn vecs_view(v: Seq<Vec<u8>>) -> Seq<Seq<u8>> {
    v.map_values(|t: Vec<u8>| t@)
}

/// Splits `s` at ASCII whitespace, dropping empty tokens.
pub fn tokenize(s: &[u8]) -> (r: Vec<Vec<u8>>)
    ensures
        vecs_view(r@) == spec_tokens(s@),
{
    let mut out: Vec<Vec<u8>> = Vec::new();
    let mut cur: Vec<u8> = Vec::new();
    let mut i: usize = 0;
    proof {
        assert(s@.skip(0) =~= s@);
        assert(vecs_view(out@) + tokens_from(s@, cur@) =~= tokens_from(s@, cur@));
    }
    while i < s.len()
        invariant
            0 <= i <= s@.len(),
            spec_tokens(s@) == vecs_view(out@) + tokens_from(s@.skip(i as int), cur@),
        decreases s@.len() - i,
    {
        let b = s[i];
        proof {
            assert(s@.skip(i as int)[0] == s@[i as int]);
            assert(s@.skip(i as int).drop_first() =~= s@.skip(i as int + 1));
        }
        if b == 32 || b == 9 || b == 10 || b == 12 || b == 13 {
            if cur.len() > 0 {
                let ghost prev = out@;
                let done = cur;
                cur = Vec::new();
                out.push(done);
                proof {
                    assert(vecs_view(out@) =~= vecs_view(prev) + seq![done@]);
                    assert(vecs_view(prev) + seq![done@]
                        + tokens_from(s@.skip(i as int + 1), cur@)
                        =~= vecs_view(prev)
                        + (seq![done@] + tokens_from(s@.skip(i as int + 1), cur@)));
                }
            } else {
                proof {
                    assert(cur@ =~= Seq::<u8>::empty());
                }
            }
        } else {
            cur.push(b);
        }
        i = i + 1;
    }
    proof {
        assert(s@.skip(s@.len() as int) =~= Seq::<u8>::empty());
    }
    if cur.len() > 0 {
        let ghost prev = out@;
        let ghost donev = cur@;
        out.push(cur);
        proof {
            assert(vecs_view(out@) =~= vecs_view(prev) + seq![donev]);
        }
    }
    out
}

/// Pieces of `s` split by the single byte `d`, accumulated left to right.
pub open spec fn split1_from(s: Seq<u8>, d: u8, cur: Seq<u8>) -> Seq<Seq<u8>>
    decreases s.len(),
{
    if s.len() == 0 {
        seq![cur]
    } else if s[0] == d {
        seq![cur] + split1_from(s.drop_first(), d, Seq::empty())
    } else {
        split1_from(s.drop_first(), d, cur.push(s[0]))
    }
}

pub open spec fn spec_split1(s: Seq<u8>, d: u8) -> Seq<Seq<u8>> {
    split1_from(s, d, Seq::empty())
}

/// Splits on a single byte, keeping empty pieces, as `str::split` does.
pub fn split1(s: &[u8], d: u8) -> (r: Vec<Vec<u8>>)
    ensures
        vecs_view(r@) == spec_split1(s@, d),
{
    let mut out: Vec<Vec<u8>> = Vec::new();
    let mut cur: Vec<u8> = Vec::new();
    let mut i: usize = 0;
    proof {
        assert(s@.skip(0) =~= s@);
        assert(vecs_view(out@) + split1_from(s@, d, cur@) =~= split1_from(s@, d, cur@));
    }
    while i < s.len()
        invariant
            0 <= i <= s@.len(),
            spec_split1(s@, d) == vecs_view(out@) + split1_from(s@.skip(i as int), d, cur@),
        decreases s@.len() - i,
    {
        let b = s[i];
        proof {
            assert(s@.skip(i as int)[0] == s@[i as int]);
            assert(s@.skip(i as int).drop_first() =~= s@.skip(i as int + 1));
        }
        if b == d {
            let ghost prev = out@;
            let done = cur;
            cur = Vec::new();
            out.push(done);
            proof {
                assert(vecs_view(out@) =~= vecs_view(prev) + seq![done@]);
                assert(vecs_view(prev) + seq![done@]
                    + split1_from(s@.skip(i as int + 1), d, cur@)
                    =~= vecs_view(prev)
                    + (seq![done@] + split1_from(s@.skip(i as int + 1), d, cur@)));
            }
        } else {
            cur.push(b);
        }
        i = i + 1;
    }
    proof {
        assert(s@.skip(s@.len() as int) =~= Seq::<u8>::empty());
    }
    let ghost prev = out@;
    let ghost donev = cur@;
    out.push(cur);
    proof {
        assert(vecs_view(out@) =~= vecs_view(prev) + seq![donev]);
    }
    out
}

/// Pieces of `s` split by either of two single-byte delimiters,
/// accumulated left to right.
pub open spec fn split_either_from(s: Seq<u8>, d0: u8, d1: u8, cur: Seq<u8>) -> Seq<Seq<u8>>
    decreases s.len(),
{
    if s.len() == 0 {
        seq![cur]
    } else if s[0] == d0 || s[0] == d1 {
        seq![cur] + split_either_from(s.drop_first(), d0, d1, Seq::empty())
    } else {
        split_either_from(s.drop_first(), d0, d1, cur.push(s[0]))
    }
}

pub open spec fn spec_split_either(s: Seq<u8>, d0: u8, d1: u8) -> Seq<Seq<u8>> {
    split_either_from(s, d0, d1, Seq::empty())
}

/// Splits on either of two bytes, keeping empty pieces, as `str::split`
/// does with a two-character set.
pub fn split_either(s: &[u8], d0: u8, d1: u8) -> (r: Vec<Vec<u8>>)
    ensures
        vecs_view(r@) == spec_split_either(s@, d0, d1),
{
    let mut out: Vec<Vec<u8>> = Vec::new();
    let mut cur: Vec<u8> = Vec::new();
    let mut i: usize = 0;
    proof {
        assert(s@.skip(0) =~= s@);
        assert(vecs_view(out@) + split_either_from(s@, d0, d1, cur@) =~= split_either_from(
            s@,
            d0,
            d1,
            cur@,
        ));
    }
    while i < s.len()
        invariant
            0 <= i <= s@.len(),
            spec_split_either(s@, d0, d1) == vecs_view(out@) + split_either_from(
                s@.skip(i as int),
                d0,
                d1,
                cur@,
            ),
        decreases s@.len() - i,
    {
        let b = s[i];
        proof {
            assert(s@.skip(i as int)[0] == s@[i as int]);
            assert(s@.skip(i as int).drop_first() =~= s@.skip(i as int + 1));
        }
        if b == d0 || b == d1 {
            let ghost prev = out@;
            let done = cur;
            cur = Vec::new();
            out.push(done);
            proof {
                assert(vecs_view(out@) =~= vecs_view(prev) + seq![done@]);
                assert(vecs_view(prev) + seq![done@]
                    + split_either_from(s@.skip(i as int + 1), d0, d1, cur@)
                    =~= vecs_view(prev)
                    + (seq![done@] + split_either_from(s@.skip(i as int + 1), d0, d1, cur@)));
            }
        } else {
            cur.push(b);
        }
        i = i + 1;
    }
    proof {
        assert(s@.skip(s@.len() as int) =~= Seq::<u8>::empty());
    }
    let ghost prev = out@;
    let ghost donev = cur@;
    out.push(cur);
    proof {
        assert(vecs_view(out@) =~= vecs_view(prev) + seq![donev]);
    }
    out
}

/// Pieces of `s` split by the two-byte delimiter `d0 d1`, accumulated
/// left to right, scanning for the leftmost match first.
pub open spec fn split2_from(s: Seq<u8>, d0: u8, d1: u8, cur: Seq<u8>) -> Seq<Seq<u8>>
    decreases s.len(),
{
    if s.len() == 0 {
        seq![cur]
    } else if s.len() >= 2 && s[0] == d0 && s[1] == d1 {
        seq![cur] + split2_from(s.skip(2), d0, d1, Seq::empty())
    } else {
        split2_from(s.drop_first(), d0, d1, cur.push(s[0]))
    }
}

pub open spec fn spec_split2(s: Seq<u8>, d0: u8, d1: u8) -> Seq<Seq<u8>> {
    split2_from(s, d0, d1, Seq::empty())
}

/// Splits on a two-byte delimiter, keeping empty pieces, as
/// `str::split` does with a two-character pattern.
pub fn split2(s: &[u8], d0: u8, d1: u8) -> (r: Vec<Vec<u8>>)
    ensures
        vecs_view(r@) == spec_split2(s@, d0, d1),
{
    let mut out: Vec<Vec<u8>> = Vec::new();
    let mut cur: Vec<u8> = Vec::new();
    let mut i: usize = 0;
    proof {
        assert(s@.skip(0) =~= s@);
        assert(vecs_view(out@) + split2_from(s@, d0, d1, cur@) =~= split2_from(s@, d0, d1, cur@));
    }
    while i < s.len()
        invariant
            0 <= i <= s@.len(),
            spec_split2(s@, d0, d1) == vecs_view(out@) + split2_from(s@.skip(i as int), d0, d1, cur@),
        decreases s@.len() - i,
    {
        let b = s[i];
        proof {
            assert(s@.skip(i as int)[0] == s@[i as int]);
            assert(s@.skip(i as int).drop_first() =~= s@.skip(i as int + 1));
            if i + 1 < s@.len() {
                assert(s@.skip(i as int)[1] == s@[i as int + 1]);
                assert(s@.skip(i as int).skip(2) =~= s@.skip(i as int + 2));
            }
        }
        if i + 1 < s.len() && b == d0 && s[i + 1] == d1 {
            let ghost prev = out@;
            let done = cur;
            cur = Vec::new();
            out.push(done);
            i = i + 2;
            proof {
                assert(vecs_view(out@) =~= vecs_view(prev) + seq![done@]);
                assert(vecs_view(prev) + seq![done@]
                    + split2_from(s@.skip(i as int), d0, d1, cur@)
                    =~= vecs_view(prev)
                    + (seq![done@] + split2_from(s@.skip(i as int), d0, d1, cur@)));
            }
        } else {
            cur.push(b);
            i = i + 1;
        }
    }
    proof {
        assert(s@.skip(s@.len() as int) =~= Seq::<u8>::empty());
    }
    let ghost prev = out@;
    let ghost donev = cur@;
    out.push(cur);
    proof {
        assert(vecs_view(out@) =~= vecs_view(prev) + seq![donev]);
    }
    out
}

} // verus!
