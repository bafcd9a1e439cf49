//! The canonical textual form of an identifier: 32 lowercase hex digits
//! grouped 8-4-4-4-12 by hyphens, and the parser that accepts that form or
//! any re-hyphenation of it (hyphens are stripped before decoding).

use vstd::prelude::*;
use vstd::string::StrSliceExecFns;
use crate::codec::{GeoTemporalUuid, CodecError};

verus! {

/// The lowercase hex character for digit `n` in `[0, 16)`.
pub open spec fn hex_char(n: nat) -> char {
    if n < 10 {
        (48 + n) as char
    } else {
        (87 + n) as char
    }
}

/// Whether `c` is a hex digit of either case.
pub open spec fn is_hex_digit(c: char) -> bool {
    (48 <= c as int <= 57) || (97 <= c as int <= 102) || (65 <= c as int <= 70)
}

/// The numeric value of a hex digit of either case.
pub open spec fn hex_val(c: char) -> nat {
    if 48 <= c as int <= 57 {
        (c as int - 48) as nat
    } else if 97 <= c as int <= 102 {
        (c as int - 87) as nat
    } else {
        (c as int - 55) as nat
    }
}

/// The hyphen positions of the canonical 8-4-4-4-12 grouping.
pub open spec fn is_hyphen_pos(i: int) -> bool {
    i == 8 || i == 13 || i == 18 || i == 23
}

/// How many hyphens of the canonical form lie before character position `i`.
pub open spec fn hyphens_before(i: int) -> int {
    (if i > 8 {
        1int
    } else {
        0int
    }) + (if i > 13 {
        1int
    } else {
        0int
    }) + (if i > 18 {
        1int
    } else {
        0int
    }) + (if i > 23 {
        1int
    } else {
        0int
    })
}

/// Hex digit `j` in `[0, 32)` of 16 bytes, high nibble of each byte first.
pub open spec fn nibble(b: Seq<u8>, j: int) -> nat {
    if j % 2 == 0 {
        (b[j / 2] / 16) as nat
    } else {
        (b[j / 2] % 16) as nat
    }
}

/// The 32 hex digit characters of 16 bytes, in order.
pub open spec fn hex_digits(b: Seq<u8>) -> Seq<char> {
    Seq::new(32, |j: int| hex_char(nibble(b, j)))
}

/// The canonical textual form of 16 bytes: 36 characters.
pub open spec fn spec_uuid_string(b: Seq<u8>) -> Seq<char> {
    Seq::new(
        36,
        |i: int|
            if is_hyphen_pos(i) {
                '-'
            } else {
                hex_char(nibble(b, i - hyphens_before(i)))
            },
    )
}

/// `s` with every hyphen removed, other characters kept in order.
pub open spec fn strip_hyphens(s: Seq<char>) -> Seq<char>
    decreases s.len(),
{
    if s.len() == 0 {
        Seq::empty()
    } else {
        strip_hyphens(s.drop_last()) + (if s.last() == '-' {
            Seq::<char>::empty()
        } else {
            seq![s.last()]
        })
    }
}

/// Whether `s` denotes an identifier: stripped of hyphens it is exactly 32
/// hex digits.
pub open spec fn valid_uuid_chars(s: Seq<char>) -> bool {
    &&& strip_hyphens(s).len() == 32
    &&& forall|j: int| 0 <= j < 32 ==> is_hex_digit(#[trigger] strip_hyphens(s)[j])
}

/// The 16 bytes a valid textual identifier denotes.
pub open spec fn spec_parse_bytes(s: Seq<char>) -> Seq<u8> {
    Seq::new(
        16,
        |j: int|
            (hex_val(strip_hyphens(s)[2 * j]) * 16 + hex_val(strip_hyphens(s)[2 * j + 1])) as u8,
    )
}

/// Character position where byte `j`'s first hex digit (or the hyphen in
/// front of it) starts in the canonical form.
pub open spec fn char_pos(j: int) -> int {
    2 * j + (if j > 4 {
        1int
    } else {
        0int
    }) + (if j > 6 {
        1int
    } else {
        0int
    }) + (if j > 8 {
        1int
    } else {
        0int
    }) + (if j > 10 {
        1int
    } else {
        0int
    })
}

/// The lowercase hex character of a digit below 16.
fn hex_char_ex(n: u8) -> (c: char)
    requires
        n < 16,
    ensures
        c == hex_char(n as nat),
{
    if n < 10 {
        (48 + n) as char
    } else {
        (87 + n) as char
    }
}

/// The value of a hex digit character, or `None` for any other character.
fn hex_val_ex(c: char) -> (r: Option<u8>)
    ensures
        r is Some <==> is_hex_digit(c),
        is_hex_digit(c) ==> r == Some(hex_val(c) as u8) && hex_val(c) < 16,
{
    let n = c as u32;
    if n >= 48 && n <= 57 {
        Some((n - 48) as u8)
    } else if n >= 97 && n <= 102 {
        Some((n - 87) as u8)
    } else if n >= 65 && n <= 70 {
        Some((n - 55) as u8)
    } else {
        None
    }
}

/// Relies on `core::iter::Iterator::collect`: a `String` collected from
/// characters holds exactly those characters in order.
#[verifier::external_body]
fn chars_to_string(v: &Vec<char>) -> (s: String)
    ensures
        s@ == v@,
{
    v.iter().collect()
}

impl GeoTemporalUuid {
    /// The canonical textual form: the identifier's bytes as 32 lowercase
    /// hex digits, grouped 8-4-4-4-12 by hyphens.
    pub fn to_uuid_string(&self) -> (s: String)
        ensures
            s@ == spec_uuid_string(self@),
    {
        let bytes = self.as_bytes();
        let mut v: Vec<char> = Vec::new();
        let mut j: usize = 0;
        while j < 16
            invariant
                j <= 16,
                bytes@ == self@,
                v@.len() == char_pos(j as int),
                forall|i: int| 0 <= i < v@.len() ==> v@[i] == spec_uuid_string(self@)[i],
            decreases 16 - j,
        {
            if j == 4 || j == 6 || j == 8 || j == 10 {
                v.push('-');
            }
            proof {
                vstd::arithmetic::div_mod::lemma_fundamental_div_mod_converse(
                    2 * (j as int),
                    2,
                    j as int,
                    0,
                );
                vstd::arithmetic::div_mod::lemma_fundamental_div_mod_converse(
                    2 * (j as int) + 1,
                    2,
                    j as int,
                    1,
                );
            }
            let byte = bytes[j];
            v.push(hex_char_ex(byte / 16));
            v.push(hex_char_ex(byte % 16));
            j = j + 1;
        }
        chars_to_string(&v)
    }

    /// Parses the canonical textual form, or the same digits with hyphens
    /// placed anywhere or left out; every other string is malformed.
    pub fn parse_uuid_string(s: &str) -> (r: Result<Self, CodecError>)
        ensures
            r is Ok <==> valid_uuid_chars(s@),
            r is Ok ==> r->Ok_0@ == spec_parse_bytes(s@),
            r is Err ==> r->Err_0 == CodecError::MalformedInput,
    {
        let len = s.unicode_len();
        let mut clean: Vec<char> = Vec::new();
        let mut i: usize = 0;
        while i < len
            invariant
                i <= len,
                len == s@.len(),
                clean@ == strip_hyphens(s@.take(i as int)),
            decreases len - i,
        {
            let c = s.get_char(i);
            proof {
                assert(s@.take(i as int + 1).drop_last() =~= s@.take(i as int));
            }
            if c != '-' {
                clean.push(c);
            }
            i = i + 1;
        }
        proof {
            assert(s@.take(len as int) =~= s@);
        }
        if clean.len() != 32 {
            return Err(CodecError::MalformedInput);
        }
        let mut bytes: [u8; 16] = [0u8; 16];
        let mut j: usize = 0;
        while j < 16
            invariant
                j <= 16,
                clean@.len() == 32,
                clean@ == strip_hyphens(s@),
                forall|m: int| 0 <= m < 2 * j ==> is_hex_digit(#[trigger] clean@[m]),
                forall|m: int| 0 <= m < j ==> bytes@[m] == spec_parse_bytes(s@)[m],
            decreases 16 - j,
        {
            let hi = match hex_val_ex(clean[2 * j]) {
                Some(v) => v,
                None => {
                    return Err(CodecError::MalformedInput);
                },
            };
            let lo = match hex_val_ex(clean[2 * j + 1]) {
                Some(v) => v,
                None => {
                    return Err(CodecError::MalformedInput);
                },
            };
            bytes[j] = hi * 16 + lo;
            j = j + 1;
        }
        Ok(GeoTemporalUuid::from_bytes(bytes))
    }
}

/// The canonical form is 36 characters: hex digits everywhere but at the
/// four hyphen positions 8, 13, 18 and 23.
pub proof fn lemma_uuid_string_shape(b: Seq<u8>)
    requires
        b.len() == 16,
    ensures
        spec_uuid_string(b).len() == 36,
        forall|i: int|
            0 <= i < 36 ==> (#[trigger] spec_uuid_string(b)[i] == '-' <==> is_hyphen_pos(i)),
        forall|i: int|
            0 <= i < 36 && !is_hyphen_pos(i) ==> is_hex_digit(#[trigger] spec_uuid_string(b)[i]),
{
    assert forall|i: int| 0 <= i < 36 && !is_hyphen_pos(i) implies is_hex_digit(
        #[trigger] spec_uuid_string(b)[i],
    ) && spec_uuid_string(b)[i] != '-' by {
        let j = i - hyphens_before(i);
        lemma_nibble_bound(b, j);
    }
}

/// Every hex digit of 16 bytes is below 16.
proof fn lemma_nibble_bound(b: Seq<u8>, j: int)
    requires
        0 <= j < 32,
        b.len() == 16,
    ensures
        nibble(b, j) < 16,
        is_hex_digit(hex_char(nibble(b, j))),
        hex_char(nibble(b, j)) != '-',
        hex_val(hex_char(nibble(b, j))) == nibble(b, j),
{
    vstd::arithmetic::div_mod::lemma_mod_bound(j, 2);
    vstd::arithmetic::div_mod::lemma_div_pos_is_pos(j, 2);
    vstd::arithmetic::div_mod::lemma_multiply_divide_lt(j, 2, 16);
    if j % 2 == 0 {
        vstd::arithmetic::div_mod::lemma_multiply_divide_lt(b[j / 2] as int, 16, 16);
        vstd::arithmetic::div_mod::lemma_div_pos_is_pos(b[j / 2] as int, 16);
    } else {
        vstd::arithmetic::div_mod::lemma_mod_bound(b[j / 2] as int, 16);
    }
}

/// Stripping the hyphens from a prefix of the canonical form leaves exactly
/// the hex digits emitted so far.
proof fn lemma_strip_canonical_prefix(b: Seq<u8>, i: int)
    requires
        b.len() == 16,
        0 <= i <= 36,
    ensures
        strip_hyphens(spec_uuid_string(b).take(i)) =~= hex_digits(b).take(i - hyphens_before(i)),
    decreases i,
{
    if i == 0 {
    } else {
        lemma_strip_canonical_prefix(b, i - 1);
        let s = spec_uuid_string(b);
        assert(s.take(i).drop_last() =~= s.take(i - 1));
        if is_hyphen_pos(i - 1) {
            assert(s.take(i).last() == '-');
        } else {
            lemma_nibble_bound(b, i - 1 - hyphens_before(i - 1));
            assert(s.take(i).last() == hex_digits(b)[i - 1 - hyphens_before(i - 1)]);
            assert(hex_digits(b).take(i - hyphens_before(i)).drop_last() =~= hex_digits(b).take(
                i - 1 - hyphens_before(i - 1),
            ));
        }
    }
}

/// String round trip: the canonical form of any 16 bytes is a valid textual
/// identifier, and parsing it gives back exactly those bytes.
pub proof fn lemma_uuid_string_round_trip(b: Seq<u8>)
    requires
        b.len() == 16,
    ensures
        valid_uuid_chars(spec_uuid_string(b)),
        spec_parse_bytes(spec_uuid_string(b)) == b,
{
    let s = spec_uuid_string(b);
    lemma_strip_canonical_prefix(b, 36);
    assert(s.take(36) =~= s);
    assert(hex_digits(b).take(32) =~= hex_digits(b));
    assert(strip_hyphens(s) == hex_digits(b));
    assert forall|j: int| 0 <= j < 32 implies is_hex_digit(#[trigger] strip_hyphens(s)[j]) by {
        lemma_nibble_bound(b, j);
    }
    assert forall|j: int| 0 <= j < 16 implies spec_parse_bytes(s)[j] == b[j] by {
        vstd::arithmetic::div_mod::lemma_fundamental_div_mod_converse(2 * j, 2, j, 0);
        vstd::arithmetic::div_mod::lemma_fundamental_div_mod_converse(2 * j + 1, 2, j, 1);
        lemma_nibble_bound(b, 2 * j);
        lemma_nibble_bound(b, 2 * j + 1);
        assert(hex_val(strip_hyphens(s)[2 * j]) == (b[j] / 16) as nat);
        assert(hex_val(strip_hyphens(s)[2 * j + 1]) == (b[j] % 16) as nat);
        vstd::arithmetic::div_mod::lemma_fundamental_div_mod(b[j] as int, 16);
    }
    assert(spec_parse_bytes(s) =~= b);
}

impl core::str::FromStr for GeoTemporalUuid {
    type Err = CodecError;

    fn from_str(s: &str) -> Result<Self, CodecError> {
        GeoTemporalUuid::parse_uuid_string(s)
    }
}

} // verus!
