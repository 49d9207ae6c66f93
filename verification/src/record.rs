//! The record decoder: reading one 512-byte record from the device and
//! turning its fixed-offset fields into values — octal sizes, NUL-padded
//! names, the signature check.

use vstd::prelude::*;

use crate::model::{
    all_octal_digits, block_at, byte_to_char, decode_name, has_signature, kind_known, kind_of,
    octal_value, pow8, strip_leading_zeros, trim_trailing_nuls,
};
use crate::{Device, TarError, Type};

verus! {

/// Maps a record's kind byte to the entry kind it stands for.
pub(crate) fn decode_kind(t: u8) -> (r: Option<Type>)
    ensures
        r == (if kind_known(t) {
            Some(kind_of(t))
        } else {
            None::<Type>
        }),
{
    match t {
        crate::TARFS_ELEM_TYPE_FILE => Some(Type::File),
        crate::TARFS_ELEM_TYPE_HARD_LINK => Some(Type::HardLink),
        crate::TARFS_ELEM_TYPE_SYMB_LINK => Some(Type::SymbLink),
        crate::TARFS_ELEM_TYPE_CHR_DEV => Some(Type::ChrDev),
        crate::TARFS_ELEM_TYPE_BLK_DEV => Some(Type::BlkDev),
        crate::TARFS_ELEM_TYPE_DIR => Some(Type::Dir),
        _ => None,
    }
}

/// `trim_trailing_nuls` keeps exactly the prefix before the trailing NULs.
pub proof fn lemma_trim_trailing_nuls_is_prefix(s: Seq<u8>, end: int)
    requires
        0 <= end <= s.len(),
        forall|j: int| end <= j < s.len() ==> s[j] == 0u8,
        end == 0 || s[end - 1] != 0u8,
    ensures
        trim_trailing_nuls(s) == s.subrange(0, end),
    decreases s.len(),
{
    if s.len() > end {
        assert(s.last() == 0u8);
        lemma_trim_trailing_nuls_is_prefix(s.drop_last(), end);
        assert(s.drop_last().subrange(0, end) =~= s.subrange(0, end));
    } else {
        if end == 0 {
            assert(s.subrange(0, 0) =~= s);
        } else {
            assert(s.last() != 0u8);
            assert(s.subrange(0, end) =~= s);
        }
    }
}

/// `strip_leading_zeros` keeps exactly the suffix after the leading zeros.
pub proof fn lemma_strip_leading_zeros_is_suffix(s: Seq<u8>, start: int)
    requires
        0 <= start <= s.len(),
        forall|j: int| 0 <= j < start ==> s[j] == 48u8,
        start == s.len() || s[start] != 48u8,
    ensures
        strip_leading_zeros(s) == s.subrange(start, s.len() as int),
    decreases start,
{
    if start > 0 {
        assert(s.first() == 48u8);
        lemma_strip_leading_zeros_is_suffix(s.drop_first(), start - 1);
        assert(s.drop_first().subrange(start - 1, s.drop_first().len() as int) =~= s.subrange(
            start,
            s.len() as int,
        ));
    } else {
        if s.len() == 0 {
            assert(s.subrange(0, 0) =~= s);
        } else {
            assert(s.subrange(0, s.len() as int) =~= s);
        }
    }
}

/// Decodes a NUL- or zero-padded octal field, as the size field of a
/// record: strip trailing NULs, strip leading `'0'` digits, read what is
/// left as base eight (empty meaning zero).  Anything that is not an octal
/// digit after the trims, or a value too large for a machine size, is a
/// malformed size.
pub fn parse_octal(field: &[u8]) -> (r: Result<usize, TarError>)
    requires
        field@.len() <= 12,
    ensures
        ({
            let stripped = strip_leading_zeros(trim_trailing_nuls(field@));
            match r {
                Ok(n) => {
                    &&& all_octal_digits(stripped)
                    &&& octal_value(stripped) <= usize::MAX
                    &&& n == octal_value(stripped)
                },
                Err(e) => {
                    &&& e == TarError::MalformedSize
                    &&& !(all_octal_digits(stripped) && octal_value(stripped) <= usize::MAX)
                },
            }
        }),
{
    let len = field.len();
    let mut end: usize = len;
    while end > 0 && field[end - 1] == 0u8
        invariant
            end <= len,
            len == field@.len(),
            forall|j: int| end <= j < len ==> field@[j] == 0u8,
        decreases end,
    {
        end = end - 1;
    }
    let mut start: usize = 0;
    while start < end && field[start] == 48u8
        invariant
            start <= end <= len,
            len == field@.len(),
            forall|j: int| 0 <= j < start ==> field@[j] == 48u8,
        decreases end - start,
    {
        start = start + 1;
    }
    proof {
        lemma_trim_trailing_nuls_is_prefix(field@, end as int);
        lemma_strip_leading_zeros_is_suffix(field@.subrange(0, end as int), start as int);
    }
    let ghost stripped = strip_leading_zeros(trim_trailing_nuls(field@));
    proof {
        assert(stripped =~= field@.subrange(start as int, end as int));
    }
    let mut acc: u64 = 0;
    let mut i: usize = start;
    while i < end
        invariant
            start <= i <= end <= len,
            len == field@.len(),
            len <= 12,
            stripped == strip_leading_zeros(trim_trailing_nuls(field@)),
            stripped == field@.subrange(start as int, end as int),
            all_octal_digits(stripped.subrange(0, i - start)),
            acc == octal_value(stripped.subrange(0, i - start)),
            acc < pow8((i - start) as nat),
        decreases end - i,
    {
        let b = field[i];
        if b < 48u8 || b > 55u8 {
            proof {
                assert(stripped[i - start] == b);
                assert(!all_octal_digits(stripped));
            }
            return Err(TarError::MalformedSize);
        }
        proof {
            let p = stripped.subrange(0, i - start);
            let q = stripped.subrange(0, i + 1 - start);
            assert(q.drop_last() =~= p);
            assert(q.last() == b);
            assert(pow8((i + 1 - start) as nat) == 8 * pow8((i - start) as nat));
            assert(pow8((i - start) as nat) <= pow8(12)) by {
                lemma_pow8_le((i - start) as nat, 12);
            }
            assert(pow8(12) == 68719476736) by {
                reveal_with_fuel(pow8, 13);
            }
        }
        acc = acc * 8 + ((b - 48u8) as u64);
        i = i + 1;
    }
    proof {
        assert(stripped.subrange(0, end - start) =~= stripped);
    }
    if acc > (usize::MAX as u64) {
        Err(TarError::MalformedSize)
    } else {
        Ok(acc as usize)
    }
}

/// `pow8` grows with its exponent.
pub proof fn lemma_pow8_le(a: nat, b: nat)
    requires
        a <= b,
    ensures
        pow8(a) <= pow8(b),
    decreases b,
{
    if a < b {
        lemma_pow8_le(a, (b - 1) as nat);
        assert(pow8(b) == 8 * pow8((b - 1) as nat));
        assert(pow8((b - 1) as nat) >= 1) by {
            lemma_pow8_pos((b - 1) as nat);
        }
    }
}

/// `pow8` is positive.
pub proof fn lemma_pow8_pos(n: nat)
    ensures
        pow8(n) >= 1,
    decreases n,
{
    if n > 0 {
        lemma_pow8_pos((n - 1) as nat);
    }
}

/// Appends one character to a string.
///
/// Relies on `String::push` of std: it appends exactly the given character.
#[verifier::external_body]
fn push_char(s: &mut String, c: char)
    ensures
        final(s)@ == old(s)@.push(c),
{
    s.push(c);
}

/// Decodes a NUL-padded name field into text: trailing NULs dropped, each
/// remaining byte read as one character (the replacement character for
/// bytes beyond ASCII).
pub fn decode_field_name(field: &[u8]) -> (s: String)
    ensures
        s@ == decode_name(field@),
{
    let len = field.len();
    let mut end: usize = len;
    while end > 0 && field[end - 1] == 0u8
        invariant
            end <= len,
            len == field@.len(),
            forall|j: int| end <= j < len ==> field@[j] == 0u8,
        decreases end,
    {
        end = end - 1;
    }
    proof {
        lemma_trim_trailing_nuls_is_prefix(field@, end as int);
    }
    let mut s = String::new();
    let mut i: usize = 0;
    while i < end
        invariant
            i <= end <= len,
            len == field@.len(),
            trim_trailing_nuls(field@) == field@.subrange(0, end as int),
            s@ == field@.subrange(0, i as int).map(|k: int, b: u8| byte_to_char(b)),
        decreases end - i,
    {
        let b = field[i];
        let c: char = if b < 128u8 {
            b as char
        } else {
            '\u{FFFD}'
        };
        push_char(&mut s, c);
        proof {
            assert(field@.subrange(0, i + 1).map(|k: int, b2: u8| byte_to_char(b2)) =~= field@
                .subrange(0, i as int)
                .map(|k: int, b2: u8| byte_to_char(b2))
                .push(byte_to_char(field@[i as int])));
        }
        i = i + 1;
    }
    proof {
        assert(s@ =~= decode_name(field@));
    }
    s
}

/// Reads the 512-byte record block that starts at `position`: bytes past
/// the end of the device come back as zero.
pub(crate) fn read_block<D: Device>(device: &mut D, position: usize) -> (r: Result<
    Vec<u8>,
    TarError,
>)
    ensures
        final(device).contents() == old(device).contents(),
        match r {
            Ok(v) => v@ == block_at(old(device).contents(), position as int),
            Err(e) => e == TarError::DeviceError,
        },
{
    if device.seek(position as u64).is_err() {
        return Err(TarError::DeviceError);
    }
    let mut block: Vec<u8> = vec![0u8; 512];
    match device.read(&mut block) {
        Ok(_) => {
            proof {
                assert(block@ =~= block_at(device.contents(), position as int));
            }
            Ok(block)
        },
        Err(_) => Err(TarError::DeviceError),
    }
}

/// Copies `len` bytes of a buffer from `start` into a vector of their own.
pub(crate) fn sub_vec(src: &Vec<u8>, start: usize, len: usize) -> (out: Vec<u8>)
    requires
        start + len <= src@.len(),
    ensures
        out@ == src@.subrange(start as int, start as int + len as int),
{
    let mut out: Vec<u8> = Vec::new();
    let mut i: usize = 0;
    while i < len
        invariant
            i <= len,
            start + len <= src@.len(),
            src@.len() == src.len(),
            out@ == src@.subrange(start as int, start as int + i as int),
        decreases len - i,
    {
        let b = src[start + i];
        out.push(b);
        proof {
            assert(src@.subrange(start as int, start as int + (i + 1)) =~= src@.subrange(
                start as int,
                start as int + i as int,
            ).push(b));
        }
        i = i + 1;
    }
    out
}

/// What `String::from_utf8_lossy` decodes a byte sequence to: a function
/// of the bytes alone, named rather than spelled out.
pub uninterp spec fn utf8_lossy_decode(bytes: Seq<u8>) -> Seq<char>;

/// Relies on `String::from_utf8_lossy` of std: invalid sequences become
/// replacement characters, and valid UTF-8 — so in particular pure ASCII —
/// decodes to its own characters.
#[verifier::external_body]
pub(crate) fn bytes_to_string_lossy(bytes: &Vec<u8>) -> (s: String)
    ensures
        s@ == utf8_lossy_decode(bytes@),
        (forall|i: int| 0 <= i < bytes@.len() ==> bytes@[i] < 128) ==> s@ == bytes@.map(
            |k: int, b: u8| b as char,
        ),
{
    String::from_utf8_lossy(bytes).into_owned()
}

/// Whether a record block carries the `"ustar"` signature.
pub(crate) fn block_has_signature(block: &Vec<u8>) -> (r: bool)
    requires
        block@.len() == 512,
    ensures
        r == has_signature(block@),
{
    block[257] == 117u8 && block[258] == 115u8 && block[259] == 116u8 && block[260] == 97u8
        && block[261] == 114u8
}

} // verus!
