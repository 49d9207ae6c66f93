//! The mathematical model of the archive: how raw bytes at an offset decode
//! into fields, sizes, names and entities, and what a full scan of the
//! stream yields.

use vstd::prelude::*;

verus! {

/// A record is 512 bytes; content is padded to the next 512-byte boundary.
pub const RECORD_SIZE: usize = 512;

/// The byte of the backing store at index `i`, with zero beyond the end.
pub open spec fn byte_at(c: Seq<u8>, i: int) -> u8 {
    if 0 <= i < c.len() {
        c[i]
    } else {
        0
    }
}

/// The 512-byte record block that starts at `off`, zero-extended past the
/// end of the store: exactly what a zero-initialized buffer holds after a
/// clamped read at `off`.
pub open spec fn block_at(c: Seq<u8>, off: int) -> Seq<u8> {
    Seq::new(512, |i: int| byte_at(c, off + i))
}

/// How many bytes a clamped read returns: the whole buffer, or what is left
/// of the store, whichever is shorter.
pub open spec fn read_len(store_len: int, pos: int, buf_len: int) -> int {
    if store_len - pos < 0 {
        0
    } else if store_len - pos < buf_len {
        store_len - pos
    } else {
        buf_len
    }
}

/// The buffer after a clamped read at `pos`: its front replaced by bytes of
/// the store, the rest untouched.
pub open spec fn read_into(c: Seq<u8>, pos: int, buf: Seq<u8>) -> Seq<u8> {
    Seq::new(
        buf.len(),
        |i: int|
            if i < read_len(c.len() as int, pos, buf.len() as int) {
                c[pos + i]
            } else {
                buf[i]
            },
    )
}

/// The 100-byte name field of a record block.
pub open spec fn name_field(b: Seq<u8>) -> Seq<u8> {
    b.subrange(0, 100)
}

/// The 12-byte octal size field of a record block.
pub open spec fn size_field(b: Seq<u8>) -> Seq<u8> {
    b.subrange(124, 136)
}

/// The kind byte of a record block.
pub open spec fn kind_byte(b: Seq<u8>) -> u8 {
    b[156]
}

/// A record is recognized when the first five signature bytes read `"ustar"`.
pub open spec fn has_signature(b: Seq<u8>) -> bool {
    &&& b[257] == 117u8  // 'u'
    &&& b[258] == 115u8  // 's'
    &&& b[259] == 116u8  // 't'
    &&& b[260] == 97u8  // 'a'
    &&& b[261] == 114u8  // 'r'
}

/// `s` with every trailing NUL byte removed.
pub open spec fn trim_trailing_nuls(s: Seq<u8>) -> Seq<u8>
    decreases s.len(),
{
    if s.len() > 0 && s.last() == 0u8 {
        trim_trailing_nuls(s.drop_last())
    } else {
        s
    }
}

/// `s` with every leading ASCII `'0'` removed.
pub open spec fn strip_leading_zeros(s: Seq<u8>) -> Seq<u8>
    decreases s.len(),
{
    if s.len() > 0 && s.first() == 48u8 {
        strip_leading_zeros(s.drop_first())
    } else {
        s
    }
}

/// An ASCII octal digit, `'0'` through `'7'`.
pub open spec fn is_octal_digit(b: u8) -> bool {
    48 <= b <= 55
}

pub open spec fn all_octal_digits(s: Seq<u8>) -> bool {
    forall|i: int| 0 <= i < s.len() ==> is_octal_digit(#[trigger] s[i])
}

/// The value of a string of octal digits; the empty string counts as zero.
pub open spec fn octal_value(s: Seq<u8>) -> int
    decreases s.len(),
{
    if s.len() == 0 {
        0
    } else {
        octal_value(s.drop_last()) * 8 + (s.last() - 48)
    }
}

/// Eight to the power `n`: the range bound of an `n`-digit octal string.
pub open spec fn pow8(n: nat) -> int
    decreases n,
{
    if n == 0 {
        1
    } else {
        8 * pow8((n - 1) as nat)
    }
}

/// The size field of a block after both trims: what remains must be octal.
pub open spec fn stripped_size_field(b: Seq<u8>) -> Seq<u8> {
    strip_leading_zeros(trim_trailing_nuls(size_field(b)))
}

/// Whether the size field of a block decodes at all.
pub open spec fn size_field_ok(b: Seq<u8>) -> bool {
    all_octal_digits(stripped_size_field(b))
}

/// The decoded size of a block whose size field is well formed.
pub open spec fn size_of_block(b: Seq<u8>) -> int {
    octal_value(stripped_size_field(b))
}

/// Whether a decoded size is representable as a machine size.
pub open spec fn size_fits(b: Seq<u8>) -> bool {
    size_of_block(b) <= usize::MAX
}

/// Whether a kind byte belongs to the known set.
pub open spec fn kind_known(t: u8) -> bool {
    48 <= t <= 53
}

/// The entry kind a known kind byte maps to.
pub open spec fn kind_of(t: u8) -> crate::Type {
    if t == 48 {
        crate::Type::File
    } else if t == 49 {
        crate::Type::HardLink
    } else if t == 50 {
        crate::Type::SymbLink
    } else if t == 51 {
        crate::Type::ChrDev
    } else if t == 52 {
        crate::Type::BlkDev
    } else {
        crate::Type::Dir
    }
}

/// How one stored byte becomes one character of a name: ASCII bytes stand
/// for themselves, anything else becomes the replacement character.
pub open spec fn byte_to_char(b: u8) -> char {
    if b < 128 {
        b as char
    } else {
        '\u{FFFD}'
    }
}

/// The decoded name of a record: the name field with trailing NULs removed,
/// read byte for byte as characters.
pub open spec fn decode_name(field: Seq<u8>) -> Seq<char> {
    trim_trailing_nuls(field).map(|i: int, b: u8| byte_to_char(b))
}

/// `x` rounded up to the next multiple of 512.
pub open spec fn align_up(x: int) -> int {
    if x % 512 == 0 {
        x
    } else {
        x + (512 - x % 512)
    }
}

/// The decoded, caller-facing view of one record: what an `Entity` holds.
pub ghost struct EntityModel {
    pub name: Seq<char>,
    pub size: int,
    pub kind: crate::Type,
    pub position: int,
}

/// The entity described by the record at `off`.
pub open spec fn entity_at(c: Seq<u8>, off: int) -> EntityModel {
    EntityModel {
        name: decode_name(name_field(block_at(c, off))),
        size: size_of_block(block_at(c, off)),
        kind: kind_of(kind_byte(block_at(c, off))),
        position: off,
    }
}

/// What a full scan of the stream from an offset yields: the entities in
/// stream order up to the first unrecognized record (the end marker), and
/// the decode error that stopped the scan early, if one did.
pub ghost struct ScanResult {
    pub entities: Seq<EntityModel>,
    pub error: Option<crate::TarError>,
}

/// The offset of the record that follows the record at `off`.
pub open spec fn next_offset(c: Seq<u8>, off: int) -> int {
    off + 512 + align_up(size_of_block(block_at(c, off)))
}

/// Scanning from `off`: stop cleanly at a record without the signature,
/// stop with an error at a record whose size field or kind byte does not
/// decode, and otherwise yield the entity and continue past its content.
pub open spec fn scan(c: Seq<u8>, off: int) -> ScanResult
    decreases (if off <= c.len() { c.len() - off } else { 0 }),
    via scan_decreases
{
    let b = block_at(c, off);
    if !has_signature(b) {
        ScanResult { entities: Seq::empty(), error: None }
    } else if !size_field_ok(b) || !size_fits(b) {
        ScanResult { entities: Seq::empty(), error: Some(crate::TarError::MalformedSize) }
    } else if !kind_known(kind_byte(b)) {
        ScanResult { entities: Seq::empty(), error: Some(crate::TarError::UnrecognizedKind) }
    } else {
        let rest = scan(c, next_offset(c, off));
        ScanResult { entities: seq![entity_at(c, off)] + rest.entities, error: rest.error }
    }
}

/// A bound on how much of the store is left to scan from `off`: the
/// measure every scanning loop decreases.
pub open spec fn scan_fuel(c: Seq<u8>, off: int) -> int {
    if off <= c.len() {
        c.len() - off
    } else {
        0
    }
}

#[via_fn]
proof fn scan_decreases(c: Seq<u8>, off: int) {
    let b = block_at(c, off);
    if has_signature(b) && size_field_ok(b) && size_fits(b) && kind_known(kind_byte(b)) {
        lemma_signature_in_range(c, off);
        lemma_octal_value_nonneg(stripped_size_field(b));
    }
}

/// `s` with every trailing `'/'` removed.
pub open spec fn trim_trailing_slashes(s: Seq<char>) -> Seq<char>
    decreases s.len(),
{
    if s.len() > 0 && s.last() == '/' {
        trim_trailing_slashes(s.drop_last())
    } else {
        s
    }
}

/// How many `'/'` characters `s` holds.
pub open spec fn count_slashes(s: Seq<char>) -> int
    decreases s.len(),
{
    if s.len() == 0 {
        0
    } else {
        count_slashes(s.drop_last()) + (if s.last() == '/' {
            1int
        } else {
            0int
        })
    }
}

/// Whether `name` lies under the directory whose full stored name is
/// `dir`: `dir` is a prefix of `name`, and the match ends on a path
/// boundary — either `dir` itself ends in `'/'`, or the names are equal,
/// or a `'/'` follows the matched prefix.  The directory's own name
/// satisfies this, so it counts among its descendants until dropped.
pub open spec fn is_descendant_name(name: Seq<char>, dir: Seq<char>) -> bool {
    &&& name.len() >= dir.len()
    &&& name.subrange(0, dir.len() as int) == dir
    &&& ((dir.len() > 0 && dir.last() == '/') || name.len() == dir.len() || name[dir.len() as int]
        == '/')
}

/// A descendant that lies directly in the directory: what remains of the
/// name past the directory prefix holds no further `'/'` once trailing
/// slashes are gone.
pub open spec fn is_direct_child_name(name: Seq<char>, dir: Seq<char>) -> bool {
    &&& is_descendant_name(name, dir)
    &&& count_slashes(trim_trailing_slashes(name.subrange(dir.len() as int, name.len() as int)))
        == 0
}

/// The index of the first entity satisfying `pred`, if any does.
pub open spec fn first_where(es: Seq<EntityModel>, pred: spec_fn(EntityModel) -> bool) -> Option<
    int,
>
    decreases es.len(),
{
    if es.len() == 0 {
        None
    } else if pred(es.first()) {
        Some(0)
    } else {
        match first_where(es.drop_first(), pred) {
            Some(i) => Some(i + 1),
            None => None,
        }
    }
}

/// What `first_where` returns is the first index satisfying `pred`, and
/// it returns nothing only where no index does.
pub proof fn lemma_first_where(es: Seq<EntityModel>, pred: spec_fn(EntityModel) -> bool)
    ensures
        match first_where(es, pred) {
            Some(i) => {
                &&& 0 <= i < es.len()
                &&& pred(es[i])
                &&& forall|j: int| 0 <= j < i ==> !pred(#[trigger] es[j])
            },
            None => forall|j: int| 0 <= j < es.len() ==> !pred(#[trigger] es[j]),
        },
    decreases es.len(),
{
    if es.len() > 0 && !pred(es.first()) {
        lemma_first_where(es.drop_first(), pred);
        match first_where(es.drop_first(), pred) {
            Some(i2) => {
                assert(pred(es[i2 + 1])) by {
                    assert(es.drop_first()[i2] == es[i2 + 1]);
                }
                assert forall|j: int| 0 <= j < i2 + 1 implies !pred(#[trigger] es[j]) by {
                    if j == 0 {
                        assert(es[0] == es.first());
                    } else {
                        assert(es.drop_first()[j - 1] == es[j]);
                    }
                }
            },
            None => {
                assert forall|j: int| 0 <= j < es.len() implies !pred(#[trigger] es[j]) by {
                    if j == 0 {
                        assert(es[0] == es.first());
                    } else {
                        assert(es.drop_first()[j - 1] == es[j]);
                    }
                }
            },
        }
    }
}

/// Whether an entity is the directory a cleaned path names: a directory
/// entry whose name, with trailing slashes gone, equals the cleaned path.
pub open spec fn dir_matches(e: EntityModel, cleaned: Seq<char>) -> bool {
    e.kind == crate::Type::Dir && trim_trailing_slashes(e.name) == cleaned
}

/// The first entity that is the directory named by `path` (trailing
/// slashes of `path` do not count).
pub open spec fn first_dir_match(es: Seq<EntityModel>, path: Seq<char>) -> Option<int> {
    first_where(es, |e: EntityModel| dir_matches(e, trim_trailing_slashes(path)))
}

/// The first entity whose name equals `path` exactly.
pub open spec fn first_name_match(es: Seq<EntityModel>, path: Seq<char>) -> Option<int> {
    first_where(es, |e: EntityModel| e.name == path)
}

/// The entities lying under the directory with full name `dir_name`, in
/// listing order, the directory's own entry included.
pub open spec fn descendant_filter(es: Seq<EntityModel>, dir_name: Seq<char>) -> Seq<EntityModel> {
    es.filter(|e: EntityModel| is_descendant_name(e.name, dir_name))
}

/// The direct children of the directory with full name `dir_name`, the
/// directory's own entry included.
pub open spec fn direct_child_filter(es: Seq<EntityModel>, dir_name: Seq<char>) -> Seq<
    EntityModel,
> {
    es.filter(|e: EntityModel| is_direct_child_name(e.name, dir_name))
}

/// The collected matches with their first element gone: the leading match
/// is the directory entry itself.
pub open spec fn drop_self(s: Seq<EntityModel>) -> Seq<EntityModel> {
    if s.len() > 0 {
        s.drop_first()
    } else {
        s
    }
}

/// What listing a directory recursively yields, if the directory exists:
/// every descendant of the first matching directory entry, at any depth,
/// in listing order, the self match dropped.
pub open spec fn deep_listing(c: Seq<u8>, path: Seq<char>) -> Option<Seq<EntityModel>> {
    let es = scan(c, 0).entities;
    match first_dir_match(es, path) {
        None => None,
        Some(i) => Some(drop_self(descendant_filter(es, es[i].name))),
    }
}

/// What listing a directory shallowly yields, if the directory exists:
/// only the direct children of the first matching directory entry, in
/// listing order, the self match dropped.
pub open spec fn shallow_listing(c: Seq<u8>, path: Seq<char>) -> Option<Seq<EntityModel>> {
    let es = scan(c, 0).entities;
    match first_dir_match(es, path) {
        None => None,
        Some(i) => Some(drop_self(direct_child_filter(es, es[i].name))),
    }
}

/// How many bytes a content read of an entity returns: the buffer length,
/// clamped so that the read neither passes `size` bytes from `offset` into
/// the content nor the end of the store.
pub open spec fn content_read_len(c: Seq<u8>, e: EntityModel, offset: int, buf_len: int) -> int {
    let want = if e.size - offset < 0 {
        0
    } else if e.size - offset < buf_len {
        e.size - offset
    } else {
        buf_len
    };
    read_len(c.len() as int, e.position + 512 + offset, want)
}

/// The buffer after a content read of an entity: its front replaced by the
/// bytes read, the rest untouched.
pub open spec fn content_read_into(c: Seq<u8>, e: EntityModel, offset: int, buf: Seq<u8>) -> Seq<
    u8,
> {
    Seq::new(
        buf.len(),
        |i: int|
            if i < content_read_len(c, e, offset, buf.len() as int) {
                c[e.position + 512 + offset + i]
            } else {
                buf[i]
            },
    )
}

/// The full content of an entity as a whole-file read returns it: `size`
/// bytes starting 512 past the record, zero where the store has ended.
pub open spec fn file_content(c: Seq<u8>, e: EntityModel) -> Seq<u8> {
    Seq::new(
        if e.size < 0 {
            0nat
        } else {
            e.size as nat
        },
        |i: int| byte_at(c, e.position + 512 + i),
    )
}

/// A signature implies in-range signature bytes, so the scanned offset lies
/// strictly inside the store.
pub proof fn lemma_signature_in_range(c: Seq<u8>, off: int)
    requires
        has_signature(block_at(c, off)),
    ensures
        off + 258 <= c.len(),
{
    if off + 258 > c.len() {
        assert(byte_at(c, off + 257) == 0);
        assert(block_at(c, off)[257] == byte_at(c, off + 257));
    }
}

/// Octal values are non-negative.
pub proof fn lemma_octal_value_nonneg(s: Seq<u8>)
    requires
        all_octal_digits(s),
    ensures
        octal_value(s) >= 0,
    decreases s.len(),
{
    if s.len() > 0 {
        assert(all_octal_digits(s.drop_last())) by {
            assert(forall|i: int| 0 <= i < s.len() - 1 ==> s.drop_last()[i] == s[i]);
        }
        lemma_octal_value_nonneg(s.drop_last());
    }
}

} // verus!
