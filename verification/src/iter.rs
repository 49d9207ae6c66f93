//! The entry scanner and the entity projector: forward-only cursors that
//! walk the stream record by record, either raw or decoded.
//!
//! A cursor holds only an offset; each step borrows the archive handle,
//! reads one record, and advances past the record and its padded content.
//! A record without the signature ends the walk; a record that does not
//! decode stops it with the error.

use vstd::prelude::*;

use crate::model::{
    align_up, block_at, byte_at, entity_at, has_signature, kind_byte, kind_known, next_offset,
    size_field_ok, size_fits,
};
use crate::record;
use crate::{Device, Entity, RawEntity, TarError, TarFS};

verus! {

/// No record can start at or beyond the end of the store: its block reads
/// back as zeros, which carry no signature.
proof fn lemma_no_signature_beyond(c: Seq<u8>, off: int)
    requires
        off >= c.len(),
    ensures
        !has_signature(block_at(c, off)),
{
    assert(block_at(c, off)[257] == byte_at(c, off + 257));
    assert(byte_at(c, off + 257) == 0);
}

/// Advances a scan offset past one record and its padded content, if the
/// new offset is still addressable.
fn advance_position(position: usize, size: usize) -> (r: Option<usize>)
    ensures
        match r {
            Some(p) => p as int == position + 512 + align_up(size as int),
            None => position + 512 + align_up(size as int) > usize::MAX,
        },
{
    let rem = size % 512;
    let aligned = if rem == 0 {
        Some(size)
    } else {
        size.checked_add(512 - rem)
    };
    match aligned {
        Some(a) => match position.checked_add(512) {
            Some(p) => p.checked_add(a),
            None => None,
        },
        None => None,
    }
}

/// A cursor over the raw records of an archive.  `position` is the offset
/// of the next record to read; the ghost offset keeps counting even where
/// a machine size can no longer hold it.
pub struct EntryIter {
    pub position: usize,
    pub model_position: Ghost<int>,
}

impl EntryIter {
    /// The offset the next step will scan, as the model counts it.
    pub open spec fn pos_model(&self) -> int {
        self.model_position@
    }

    /// The machine offset tracks the model offset until the model offset
    /// leaves the addressable range, where every scan ends anyway.
    pub open spec fn wf(&self) -> bool {
        self.model_position@ == self.position as int || (self.position == usize::MAX
            && self.model_position@ >= usize::MAX)
    }

    /// A fresh cursor at the start of the archive.
    pub fn new<D: Device>(_fs: &TarFS<D>) -> (it: EntryIter)
        ensures
            it.wf(),
            it.pos_model() == 0,
    {
        EntryIter { position: 0, model_position: Ghost(0) }
    }

    /// Reads the record at the cursor.
    ///
    /// Nothing (and no movement) at the end marker; the raw record and its
    /// start offset, with the cursor moved past its content, where the
    /// record is recognized and its size decodes; the error (and no
    /// movement) where the device fails or the size field is malformed.
    pub fn next<D: Device>(&mut self, fs: &mut TarFS<D>) -> (r: Option<
        Result<(usize, RawEntity), TarError>,
    >)
        requires
            old(self).wf(),
        ensures
            final(fs).contents() == old(fs).contents(),
            final(self).wf(),
            ({
                let c = old(fs).contents();
                let p = old(self).pos_model();
                let b = block_at(c, p);
                match r {
                    None => {
                        &&& !has_signature(b)
                        &&& *final(self) == *old(self)
                    },
                    Some(Err(e)) => {
                        &&& *final(self) == *old(self)
                        &&& (e == TarError::DeviceError || (e == TarError::MalformedSize
                            && has_signature(b) && !(size_field_ok(b) && size_fits(b))))
                    },
                    Some(Ok((pos, raw))) => {
                        &&& has_signature(b)
                        &&& size_field_ok(b)
                        &&& size_fits(b)
                        &&& pos as int == p
                        &&& raw.matches_block(b)
                        &&& final(self).pos_model() == next_offset(c, p)
                    },
                }
            }),
    {
        let ghost c = fs.contents();
        let ghost p = self.pos_model();
        proof {
            fs.lemma_contents_bounded();
            if self.position as int != p {
                lemma_no_signature_beyond(c, p);
                lemma_no_signature_beyond(c, self.position as int);
            }
        }
        let block = match fs.read_block_at(self.position) {
            Ok(b) => b,
            Err(_) => {
                return Some(Err(TarError::DeviceError));
            },
        };
        if !record::block_has_signature(&block) {
            return None;
        }
        let size_f = record::sub_vec(&block, 124, 12);
        let size = match record::parse_octal(size_f.as_slice()) {
            Ok(s) => s,
            Err(_) => {
                return Some(Err(TarError::MalformedSize));
            },
        };
        let raw = RawEntity::from_block(&block);
        let start = self.position;
        match advance_position(self.position, size) {
            Some(next) => {
                self.position = next;
                self.model_position = Ghost(next as int);
            },
            None => {
                self.position = usize::MAX;
                self.model_position = Ghost(p + 512 + align_up(size as int));
            },
        }
        Some(Ok((start, raw)))
    }
}

/// A cursor over the decoded entities of an archive: the entry scanner
/// with the entity projection layered on top.
pub struct EntityIter {
    pub entries_iter: EntryIter,
}

impl EntityIter {
    /// The offset the next step will scan, as the model counts it.
    pub open spec fn pos_model(&self) -> int {
        self.entries_iter.pos_model()
    }

    pub open spec fn wf(&self) -> bool {
        self.entries_iter.wf()
    }

    /// A fresh cursor at the start of the archive.
    pub fn new<D: Device>(fs: &TarFS<D>) -> (it: EntityIter)
        ensures
            it.wf(),
            it.pos_model() == 0,
    {
        EntityIter { entries_iter: EntryIter::new(fs) }
    }

    /// Decodes the record at the cursor into an entity.
    ///
    /// Exactly the scanner's stepping, with two more outcomes folded in:
    /// a malformed size or an unrecognized kind byte stop the walk with
    /// their decode error.
    pub fn next<D: Device>(&mut self, fs: &mut TarFS<D>) -> (r: Option<Result<Entity, TarError>>)
        requires
            old(self).wf(),
        ensures
            final(fs).contents() == old(fs).contents(),
            final(self).wf(),
            ({
                let c = old(fs).contents();
                let p = old(self).pos_model();
                let b = block_at(c, p);
                match r {
                    None => {
                        &&& !has_signature(b)
                        &&& *final(self) == *old(self)
                    },
                    Some(Err(e)) => {
                        &&& *final(self) == *old(self)
                        &&& (e == TarError::DeviceError || (e == TarError::MalformedSize
                            && has_signature(b) && !(size_field_ok(b) && size_fits(b))) || (e
                            == TarError::UnrecognizedKind && has_signature(b) && size_field_ok(b)
                            && size_fits(b) && !kind_known(kind_byte(b))))
                    },
                    Some(Ok(ent)) => {
                        &&& has_signature(b)
                        &&& size_field_ok(b)
                        &&& size_fits(b)
                        &&& kind_known(kind_byte(b))
                        &&& ent@ == entity_at(c, p)
                        &&& final(self).pos_model() == next_offset(c, p)
                    },
                }
            }),
    {
        let ghost c = fs.contents();
        let ghost p = self.pos_model();
        let step = self.entries_iter.next(fs);
        let (position, raw) = match step {
            None => {
                return None;
            },
            Some(Err(e)) => {
                return Some(Err(e));
            },
            Some(Ok(x)) => x,
        };
        let name = record::decode_field_name(raw.name.as_slice());
        let size = match record::parse_octal(raw.size.as_slice()) {
            Ok(s) => s,
            Err(_) => {
                // The scanner has already decoded this very field.
                proof {
                    assert(false);
                }
                return Some(Err(TarError::MalformedSize));
            },
        };
        let _type = match record::decode_kind(raw._type) {
            Some(t) => t,
            None => {
                self.entries_iter = EntryIter { position, model_position: Ghost(p) };
                return Some(Err(TarError::UnrecognizedKind));
            },
        };
        Some(Ok(Entity { name, size, _type, position }))
    }
}

} // verus!
