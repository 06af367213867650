//! Text carried by on-disk structures: UTF-16 little-endian names.

use vstd::prelude::*;

verus! {

/// The 16-bit code units held by a little-endian byte buffer, in order.
/// A trailing odd byte is ignored, as it cannot form a unit.
pub open spec fn utf16_units(b: Seq<u8>) -> Seq<u16> {
    Seq::new(b.len() / 2, |i: int| (b[2 * i] as nat + 256 * b[2 * i + 1] as nat) as u16)
}

/// Whether a sequence of 16-bit code units is well-formed UTF-16: every
/// high surrogate is followed by a low surrogate, and no low surrogate
/// stands alone.
pub open spec fn utf16_valid(u: Seq<u16>) -> bool
    decreases u.len(),
{
    if u.len() == 0 {
        true
    } else if u[0] < 0xD800 || u[0] >= 0xE000 {
        utf16_valid(u.skip(1))
    } else if u[0] < 0xDC00 {
        u.len() >= 2 && 0xDC00 <= u[1] < 0xE000 && utf16_valid(u.skip(2))
    } else {
        false
    }
}

/// The characters that a well-formed UTF-16 code-unit sequence denotes.
pub uninterp spec fn utf16_chars(u: Seq<u16>) -> Seq<char>;

/// Relies on `String::from_utf16`: decodes UTF-16 code units into a string,
/// failing exactly on ill-formed UTF-16; code units below 0x80 decode to
/// the characters with the same values.
#[verifier::external_body]
pub(crate) fn utf16_to_string(units: &Vec<u16>) -> (r: Option<String>)
    ensures
        r is Some <==> utf16_valid(units@),
        r matches Some(s) ==> s@ == utf16_chars(units@),
        r matches Some(s) ==> ((forall|i: int| 0 <= i < units@.len() ==> units@[i] < 0x80)
            ==> s@ == Seq::new(units@.len(), |i: int| (units@[i] as u8) as char)),
{
    String::from_utf16(units.as_slice()).ok()
}

/// One byte folded to lower case, over the ASCII letters alone.
pub open spec fn lower_byte(b: u8) -> u8 {
    if 0x41 <= b <= 0x5A {
        (b + 0x20) as u8
    } else {
        b
    }
}

/// A byte buffer folded to lower case, over the ASCII letters alone.
pub open spec fn lower_bytes(s: Seq<u8>) -> Seq<u8> {
    s.map_values(|b: u8| lower_byte(b))
}

/// Whether `needle` occurs in `haystack` starting at position `i`.
pub open spec fn is_substring_at(haystack: Seq<u8>, needle: Seq<u8>, i: int) -> bool {
    0 <= i && i + needle.len() <= haystack.len() && haystack.subrange(i, i + needle.len())
        == needle
}

/// Whether `needle` occurs anywhere in `haystack`.
pub open spec fn contains_bytes(haystack: Seq<u8>, needle: Seq<u8>) -> bool {
    exists|i: int| is_substring_at(haystack, needle, i)
}

/// Relies on twoway::find_bytes: the position of the first occurrence of
/// `needle` in `haystack`, if it occurs at all; an empty needle occurs at
/// position zero.
#[verifier::external_body]
fn find_bytes(haystack: &[u8], needle: &[u8]) -> (r: Option<usize>)
    ensures
        r matches Some(i) ==> is_substring_at(haystack@, needle@, i as int) && (forall|j: int|
            0 <= j < i ==> !is_substring_at(haystack@, needle@, j)),
        r is None ==> !contains_bytes(haystack@, needle@),
{
    twoway::find_bytes(haystack, needle)
}

/// Folds a byte buffer to lower case, over the ASCII letters alone.
pub fn lower_vec(input: &[u8]) -> (r: Vec<u8>)
    ensures
        r@ == lower_bytes(input@),
{
    let n: usize = input.len();
    let mut out: Vec<u8> = Vec::new();
    let mut i: usize = 0;
    while i < n
        invariant
            n == input@.len(),
            i <= n,
            out@ =~= lower_bytes(input@.take(i as int)),
        decreases n - i,
    {
        let b = input[i];
        let l: u8 = if 0x41 <= b && b <= 0x5A {
            b + 0x20
        } else {
            b
        };
        out.push(l);
        proof {
            assert(lower_bytes(input@.take(i as int + 1)) =~= lower_bytes(
                input@.take(i as int),
            ).push(lower_byte(input@[i as int])));
        }
        i = i + 1;
    }
    proof {
        assert(lower_bytes(input@.take(n as int)) =~= lower_bytes(input@));
    }
    out
}

/// Whether the lower-cased needle occurs in the lower-cased haystack.
pub fn contains_lowered(haystack: &[u8], needle_lowered: &Vec<u8>) -> (r: bool)
    ensures
        r == contains_bytes(lower_bytes(haystack@), needle_lowered@),
{
    let h = lower_vec(haystack);
    match find_bytes(h.as_slice(), needle_lowered.as_slice()) {
        Some(_) => true,
        None => false,
    }
}

/// Collects the 16-bit code units of a little-endian byte buffer.
pub fn collect_utf16_units(input: &[u8]) -> (r: Vec<u16>)
    ensures
        r@ == utf16_units(input@),
{
    let n: usize = input.len();
    let pairs: usize = n / 2;
    let mut units: Vec<u16> = Vec::new();
    let mut j: usize = 0;
    while j < pairs
        invariant
            n == input@.len(),
            pairs == n / 2,
            j <= pairs,
            units@ == utf16_units(input@.take(2 * j as int)),
        decreases pairs - j,
    {
        let lo = input[2 * j] as u16;
        let hi = input[2 * j + 1] as u16;
        let u: u16 = lo + hi * 256;
        units.push(u);
        proof {
            let prev = input@.take(2 * j as int);
            let cur = input@.take(2 * j as int + 2);
            assert(utf16_units(cur) =~= utf16_units(prev).push(u));
        }
        j = j + 1;
    }
    proof {
        assert(utf16_units(input@.take(2 * pairs as int)) =~= utf16_units(input@));
    }
    units
}

} // verus!
