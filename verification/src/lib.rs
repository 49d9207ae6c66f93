//! A read-only USTAR (POSIX tar) archive reader over an abstract byte device.
//!
//! The archive is a stream of 512-byte records.  Each record carries a name,
//! an octal size field, an entry-kind byte and a `"ustar"` signature; the
//! content of a file follows its record, and the next record starts at the
//! next 512-byte boundary after the content.  A record without the signature
//! marks the end of the archive.

use vstd::assert_seqs_equal;
use vstd::prelude::*;

pub mod io;
pub mod iter;
pub mod laws;
pub mod model;
pub mod paths;
pub mod ram_device;
pub mod record;

use iter::{EntityIter, EntryIter};
use model::{
    block_at, entity_at, has_signature, kind_known, kind_of, read_into, read_len, scan, scan_fuel,
    EntityModel,
};

verus! {

/// Kind byte of a regular file record (ASCII `'0'`).
pub const TARFS_ELEM_TYPE_FILE: u8 = 48;
/// Kind byte of a hard-link record (ASCII `'1'`).
pub const TARFS_ELEM_TYPE_HARD_LINK: u8 = 49;
/// Kind byte of a symbolic-link record (ASCII `'2'`).
pub const TARFS_ELEM_TYPE_SYMB_LINK: u8 = 50;
/// Kind byte of a character-device record (ASCII `'3'`).
pub const TARFS_ELEM_TYPE_CHR_DEV: u8 = 51;
/// Kind byte of a block-device record (ASCII `'4'`).
pub const TARFS_ELEM_TYPE_BLK_DEV: u8 = 52;
/// Kind byte of a directory record (ASCII `'5'`).
pub const TARFS_ELEM_TYPE_DIR: u8 = 53;

/// The kind of an archive entry, decoded from the kind byte of its record.
#[derive(Debug, Clone, Copy, PartialEq, Eq, Structural)]
pub enum Type {
    File,
    HardLink,
    SymbLink,
    ChrDev,
    BlkDev,
    Dir,
}

/// Everything that can go wrong while opening or traversing an archive.
#[derive(Debug, Clone, Copy, PartialEq, Eq, Structural)]
pub enum TarError {
    /// The record at offset 0 does not carry the `"ustar"` signature.
    InvalidArchive,
    /// A seek or read on the underlying device failed.
    DeviceError,
    /// No entry with the requested path exists in the archive.
    NotFound,
    /// A record's kind byte is outside the known set.
    UnrecognizedKind,
    /// A record's size field is not valid padded octal text.
    MalformedSize,
}

/// The error a [`Device`] reports; the archive never looks inside it.
#[derive(Debug, Clone, Copy, PartialEq, Eq, Structural)]
pub struct DeviceError;

/// A positioned byte source: the capability the archive reads through.
///
/// `contents` is the full byte content of the backing store and `pos` the
/// current cursor; `seek` moves the cursor, `read` copies bytes from the
/// cursor into the front of the buffer, clamped at the end of the store.
pub trait Device: Sized {
    spec fn contents(&self) -> Seq<u8>;

    spec fn pos(&self) -> int;

    /// A device is an in-memory addressable store: every byte of it has a
    /// machine-size index.
    proof fn lemma_contents_bounded(&self)
        ensures
            self.contents().len() <= usize::MAX,
    ;

    fn seek(&mut self, position: u64) -> (r: Result<(), DeviceError>)
        ensures
            final(self).contents() == old(self).contents(),
            r is Ok ==> final(self).pos() == position as int,
    ;

    fn read(&mut self, buffer: &mut Vec<u8>) -> (r: Result<usize, DeviceError>)
        ensures
            final(self).contents() == old(self).contents(),
            final(buffer)@.len() == old(buffer)@.len(),
            match r {
                Ok(n) => {
                    &&& n as int == read_len(
                        old(self).contents().len() as int,
                        old(self).pos(),
                        old(buffer)@.len() as int,
                    )
                    &&& final(buffer)@ == read_into(
                        old(self).contents(),
                        old(self).pos(),
                        old(buffer)@,
                    )
                    &&& final(self).pos() == old(self).pos() + n
                },
                Err(_) => true,
            },
    ;
}

/// One archive record with its raw, fixed-width fields: the on-disk layout
/// of a 512-byte header, kept byte for byte.
pub struct RawEntity {
    pub name: Vec<u8>,
    pub mode: Vec<u8>,
    pub uid: Vec<u8>,
    pub gid: Vec<u8>,
    pub size: Vec<u8>,
    pub addition_time: Vec<u8>,
    pub checksum: Vec<u8>,
    pub _type: u8,
    pub link: Vec<u8>,
    pub signature: Vec<u8>,
    pub version: Vec<u8>,
    pub user: Vec<u8>,
    pub group: Vec<u8>,
    pub device_nro_1: Vec<u8>,
    pub device_nro_2: Vec<u8>,
    pub prefix: Vec<u8>,
}

impl RawEntity {
    /// The record holds exactly the fields of the 512-byte block `b`, at
    /// their fixed offsets.
    pub open spec fn matches_block(&self, b: Seq<u8>) -> bool {
        &&& self.name@ == b.subrange(0, 100)
        &&& self.mode@ == b.subrange(100, 108)
        &&& self.uid@ == b.subrange(108, 116)
        &&& self.gid@ == b.subrange(116, 124)
        &&& self.size@ == b.subrange(124, 136)
        &&& self.addition_time@ == b.subrange(136, 148)
        &&& self.checksum@ == b.subrange(148, 156)
        &&& self._type == b[156]
        &&& self.link@ == b.subrange(157, 257)
        &&& self.signature@ == b.subrange(257, 263)
        &&& self.version@ == b.subrange(263, 265)
        &&& self.user@ == b.subrange(265, 297)
        &&& self.group@ == b.subrange(297, 329)
        &&& self.device_nro_1@ == b.subrange(329, 337)
        &&& self.device_nro_2@ == b.subrange(337, 345)
        &&& self.prefix@ == b.subrange(345, 500)
    }

    /// Splits a 512-byte record block into its fields.
    pub(crate) fn from_block(block: &Vec<u8>) -> (r: RawEntity)
        requires
            block@.len() == 512,
        ensures
            r.matches_block(block@),
    {
        RawEntity {
            name: record::sub_vec(block, 0, 100),
            mode: record::sub_vec(block, 100, 8),
            uid: record::sub_vec(block, 108, 8),
            gid: record::sub_vec(block, 116, 8),
            size: record::sub_vec(block, 124, 12),
            addition_time: record::sub_vec(block, 136, 12),
            checksum: record::sub_vec(block, 148, 8),
            _type: block[156],
            link: record::sub_vec(block, 157, 100),
            signature: record::sub_vec(block, 257, 6),
            version: record::sub_vec(block, 263, 2),
            user: record::sub_vec(block, 265, 32),
            group: record::sub_vec(block, 297, 32),
            device_nro_1: record::sub_vec(block, 329, 8),
            device_nro_2: record::sub_vec(block, 337, 8),
            prefix: record::sub_vec(block, 345, 155),
        }
    }
}

/// Finds the first listed entity that is the directory `path` names: a
/// directory entry equal to `path` once trailing slashes are gone on both
/// sides.  Hands back its index and its full stored name.
fn find_directory(all: &Vec<Entity>, path: &str) -> (r: Option<(usize, String)>)
    ensures
        ({
            let es = all@.map_values(|e: Entity| e@);
            let fm = model::first_dir_match(es, path@);
            match r {
                Some(pair) => {
                    &&& fm == Some(pair.0 as int)
                    &&& pair.1@ == es[pair.0 as int].name
                },
                None => fm is None,
            }
        }),
{
    let ghost es = all@.map_values(|e: Entity| e@);
    let ghost dpred = |e: EntityModel| model::dir_matches(
        e,
        model::trim_trailing_slashes(path@),
    );
    let n = all.len();
    let mut i: usize = 0;
    while i < n
        invariant
            i <= n,
            n == all.len(),
            es == all@.map_values(|e: Entity| e@),
            dpred == (|e: EntityModel| model::dir_matches(
                e,
                model::trim_trailing_slashes(path@),
            )),
            forall|j: int| 0 <= j < i ==> !dpred(#[trigger] es[j]),
        decreases n - i,
    {
        let is_dir = all[i]._type == Type::Dir;
        if is_dir && paths::trimmed_eq(all[i].name.as_str(), path) {
            proof {
                assert(dpred(es[i as int]));
                model::lemma_first_where(es, dpred);
            }
            let name = all[i].name.clone();
            return Some((i, name));
        }
        proof {
            assert(!dpred(es[i as int]));
        }
        i = i + 1;
    }
    proof {
        model::lemma_first_where(es, dpred);
    }
    None
}

/// Collects, in listing order, the entities that lie under the directory
/// with full stored name `dir_name` — all descendants, or only the direct
/// children.  The directory's own entry is collected too.
fn filter_descendants(all: &Vec<Entity>, dir_name: &str, shallow: bool) -> (r: Vec<Entity>)
    ensures
        ({
            let es = all@.map_values(|e: Entity| e@);
            r@.map_values(|e: Entity| e@) == (if shallow {
                model::direct_child_filter(es, dir_name@)
            } else {
                model::descendant_filter(es, dir_name@)
            })
        }),
{
    let ghost es = all@.map_values(|e: Entity| e@);
    let ghost fpred = if shallow {
        |e: EntityModel| model::is_direct_child_name(e.name, dir_name@)
    } else {
        |e: EntityModel| model::is_descendant_name(e.name, dir_name@)
    };
    let n = all.len();
    let mut result: Vec<Entity> = Vec::new();
    let mut j: usize = 0;
    while j < n
        invariant
            j <= n,
            n == all.len(),
            es == all@.map_values(|e: Entity| e@),
            fpred == (if shallow {
                |e: EntityModel| model::is_direct_child_name(e.name, dir_name@)
            } else {
                |e: EntityModel| model::is_descendant_name(e.name, dir_name@)
            }),
            result@.map_values(|e: Entity| e@) == es.take(j as int).filter(fpred),
        decreases n - j,
    {
        let matches = if shallow {
            paths::is_direct_child(all[j].name.as_str(), dir_name)
        } else {
            paths::is_descendant(all[j].name.as_str(), dir_name)
        };
        proof {
            assert(matches == fpred(es[j as int]));
            assert(es.take(j + 1) =~= es.take(j as int).push(es[j as int]));
            es.take(j as int).lemma_filter_push(es[j as int], fpred);
        }
        if matches {
            let e = all[j].clone();
            proof {
                assert(result@.push(e).map_values(|x: Entity| x@) =~= result@.map_values(
                    |x: Entity| x@,
                ).push(es[j as int]));
            }
            result.push(e);
        }
        j = j + 1;
    }
    proof {
        assert(es.take(n as int) =~= es);
    }
    result
}

/// The decoded, caller-facing form of one archive entry.  It is pure data:
/// it stays valid after the archive handle is gone.
#[derive(Debug)]
pub struct Entity {
    /// The entry's full path inside the archive.
    pub name: String,
    /// The entry's content length in bytes (not the padded length).
    pub size: usize,
    /// The decoded entry kind.
    pub _type: Type,
    /// The device offset at which the entry's record starts; content of a
    /// file begins 512 bytes later.
    pub position: usize,
}

impl View for Entity {
    type V = EntityModel;

    open spec fn view(&self) -> EntityModel {
        EntityModel {
            name: self.name@,
            size: self.size as int,
            kind: self._type,
            position: self.position as int,
        }
    }
}

impl Clone for Entity {
    fn clone(&self) -> (r: Self)
        ensures
            r == *self,
    {
        Entity {
            name: self.name.clone(),
            size: self.size,
            _type: self._type,
            position: self.position,
        }
    }
}

/// The archive handle: owns the device for its whole lifetime and exposes
/// listing, path resolution and content reads over it.
pub struct TarFS<D: Device> {
    pub(crate) device: D,
}

impl<D: Device> TarFS<D> {
    /// The bytes of the backing store the archive reads from.
    pub closed spec fn contents(&self) -> Seq<u8> {
        self.device.contents()
    }

    /// Opens an archive: reads the record at offset 0 and checks its
    /// signature.  Takes ownership of the device; opening does not scan
    /// the stream.
    pub fn from_device(device: D) -> (r: Result<TarFS<D>, TarError>)
        ensures
            match r {
                Ok(fs) => {
                    &&& fs.contents() == device.contents()
                    &&& has_signature(block_at(device.contents(), 0))
                },
                Err(e) => {
                    &&& (e == TarError::DeviceError || e == TarError::InvalidArchive)
                    &&& e == TarError::InvalidArchive ==> !has_signature(
                        block_at(device.contents(), 0),
                    )
                },
            },
            !has_signature(block_at(device.contents(), 0)) ==> !(r is Ok),
    {
        let mut device = device;
        let block = match record::read_block(&mut device, 0) {
            Ok(b) => b,
            Err(_) => {
                return Err(TarError::DeviceError);
            },
        };
        if record::block_has_signature(&block) {
            Ok(TarFS { device })
        } else {
            Err(TarError::InvalidArchive)
        }
    }

    /// Maps a record's kind byte to the entry kind, or nothing for a byte
    /// outside the known set.
    pub fn raw_to_type(t: u8) -> (r: Option<Type>)
        ensures
            r == (if kind_known(t) {
                Some(kind_of(t))
            } else {
                None::<Type>
            }),
    {
        record::decode_kind(t)
    }

    /// Reads the 512-byte record block that starts at `position`.
    pub(crate) fn read_block_at(&mut self, position: usize) -> (r: Result<Vec<u8>, TarError>)
        ensures
            final(self).contents() == old(self).contents(),
            match r {
                Ok(v) => v@ == block_at(old(self).contents(), position as int),
                Err(e) => e == TarError::DeviceError,
            },
    {
        record::read_block(&mut self.device, position)
    }

    /// A fresh raw-record cursor at the start of the archive.
    pub fn get_entries(&self) -> (it: EntryIter)
        ensures
            it.wf(),
            it.pos_model() == 0,
    {
        EntryIter::new(self)
    }

    /// Lists every entity of the archive, in stream order, by running the
    /// entity projector over the full stream: exactly the entities the
    /// scan model yields, each exactly once, or the first error the walk
    /// meets.
    pub fn list(&mut self) -> (r: Result<Vec<Entity>, TarError>)
        ensures
            final(self).contents() == old(self).contents(),
            ({
                let s = scan(old(self).contents(), 0);
                match r {
                    Ok(v) => {
                        &&& s.error is None
                        &&& v@.map_values(|e: Entity| e@) == s.entities
                    },
                    Err(e) => e == TarError::DeviceError || s.error == Some(e),
                }
            }),
    {
        let ghost c = self.contents();
        let mut out: Vec<Entity> = Vec::new();
        let mut it = EntityIter::new(self);
        loop
            invariant
                it.wf(),
                c == old(self).contents(),
                self.contents() == c,
                scan(c, 0).entities == out@.map_values(|e: Entity| e@) + scan(
                    c,
                    it.pos_model(),
                ).entities,
                scan(c, 0).error == scan(c, it.pos_model()).error,
            decreases scan_fuel(c, it.pos_model()),
        {
            let ghost p = it.pos_model();
            match it.next(self) {
                None => {
                    proof {
                        assert(scan(c, p).entities =~= Seq::<EntityModel>::empty());
                        assert(out@.map_values(|e: Entity| e@) + Seq::<EntityModel>::empty()
                            =~= out@.map_values(|e: Entity| e@));
                    }
                    return Ok(out);
                },
                Some(Err(e)) => {
                    return Err(e);
                },
                Some(Ok(ent)) => {
                    proof {
                        model::lemma_signature_in_range(c, p);
                        assert(out@.push(ent).map_values(|e: Entity| e@) =~= out@.map_values(
                            |e: Entity| e@,
                        ).push(ent@));
                        assert(out@.map_values(|e: Entity| e@) + scan(c, p).entities =~= out@.push(
                            ent,
                        ).map_values(|e: Entity| e@) + scan(c, model::next_offset(c, p)).entities);
                    }
                    out.push(ent);
                },
            }
        }
    }

    /// Lists a directory: the shared engine behind the recursive and the
    /// shallow listing.
    fn list_matching(&mut self, path: &str, shallow: bool) -> (r: Result<Vec<Entity>, TarError>)
        ensures
            final(self).contents() == old(self).contents(),
            ({
                let c = old(self).contents();
                let s = scan(c, 0);
                let lst = if shallow {
                    model::shallow_listing(c, path@)
                } else {
                    model::deep_listing(c, path@)
                };
                match r {
                    Ok(v) => {
                        &&& s.error is None
                        &&& lst is Some
                        &&& v@.map_values(|e: Entity| e@) == lst->0
                    },
                    Err(e) => {
                        ||| e == TarError::DeviceError
                        ||| (e == TarError::NotFound && s.error is None && lst is None)
                        ||| s.error == Some(e)
                    },
                }
            }),
    {
        let ghost c = self.contents();
        let all = match self.list() {
            Ok(v) => v,
            Err(e) => {
                return Err(e);
            },
        };
        let ghost es = all@.map_values(|e: Entity| e@);
        let (_di, dir_name) = match find_directory(&all, path) {
            Some(pair) => pair,
            None => {
                return Err(TarError::NotFound);
            },
        };
        let mut result = filter_descendants(&all, dir_name.as_str(), shallow);
        let ghost collected = result@.map_values(|e: Entity| e@);
        if result.len() > 0 {
            result.remove(0);
            proof {
                assert(result@.map_values(|e: Entity| e@) =~= model::drop_self(collected));
            }
        } else {
            proof {
                assert(result@.map_values(|e: Entity| e@) =~= model::drop_self(collected));
            }
        }
        Ok(result)
    }

    /// Lists everything under a directory, at any depth: finds the single
    /// directory entry the cleaned `path` names, collects every entity
    /// whose name continues the directory's full name across a path
    /// boundary, in listing order, and drops the leading self match.
    pub fn list_by_path(&mut self, path: &str) -> (r: Result<Vec<Entity>, TarError>)
        ensures
            final(self).contents() == old(self).contents(),
            ({
                let c = old(self).contents();
                let s = scan(c, 0);
                match r {
                    Ok(v) => {
                        &&& s.error is None
                        &&& model::deep_listing(c, path@) is Some
                        &&& v@.map_values(|e: Entity| e@) == model::deep_listing(c, path@)->0
                    },
                    Err(e) => {
                        ||| e == TarError::DeviceError
                        ||| (e == TarError::NotFound && s.error is None && model::deep_listing(
                            c,
                            path@,
                        ) is None)
                        ||| s.error == Some(e)
                    },
                }
            }),
    {
        self.list_matching(path, false)
    }

    /// Lists the direct children of a directory: as `list_by_path`, but an
    /// entity only counts where the remainder of its name past the
    /// directory prefix holds no further separator.
    pub fn list_by_path_shallow(&mut self, path: &str) -> (r: Result<Vec<Entity>, TarError>)
        ensures
            final(self).contents() == old(self).contents(),
            ({
                let c = old(self).contents();
                let s = scan(c, 0);
                match r {
                    Ok(v) => {
                        &&& s.error is None
                        &&& model::shallow_listing(c, path@) is Some
                        &&& v@.map_values(|e: Entity| e@) == model::shallow_listing(c, path@)->0
                    },
                    Err(e) => {
                        ||| e == TarError::DeviceError
                        ||| (e == TarError::NotFound && s.error is None && model::shallow_listing(
                            c,
                            path@,
                        ) is None)
                        ||| s.error == Some(e)
                    },
                }
            }),
    {
        self.list_matching(path, true)
    }

    /// Finds the first entity whose name equals `path` exactly, in stream
    /// order: no prefix matching and no trailing-slash normalization.
    /// Where no entity matches, the lookup fails with `NotFound`; a stream
    /// that fails to decode before any match yields its decode error.
    pub fn find_file(&mut self, path: &str) -> (r: Result<Entity, TarError>)
        ensures
            final(self).contents() == old(self).contents(),
            ({
                let s = scan(old(self).contents(), 0);
                let fm = model::first_name_match(s.entities, path@);
                match r {
                    Ok(ent) => fm is Some && ent@ == s.entities[fm->0],
                    Err(e) => {
                        ||| (e == TarError::NotFound && s.error is None && fm is None)
                        ||| e == TarError::DeviceError
                        ||| (s.error == Some(e) && fm is None)
                    },
                }
            }),
    {
        let ghost c = self.contents();
        let ghost es = scan(c, 0).entities;
        let ghost pred = |e: EntityModel| e.name == path@;
        let mut it = EntityIter::new(self);
        let ghost mut k: int = 0;
        loop
            invariant
                it.wf(),
                c == old(self).contents(),
                self.contents() == c,
                es == scan(c, 0).entities,
                pred == (|e: EntityModel| e.name == path@),
                0 <= k <= es.len(),
                scan(c, it.pos_model()).entities == es.skip(k),
                scan(c, 0).error == scan(c, it.pos_model()).error,
                forall|j: int| 0 <= j < k ==> !pred(#[trigger] es[j]),
            decreases scan_fuel(c, it.pos_model()),
        {
            let ghost p = it.pos_model();
            match it.next(self) {
                None => {
                    proof {
                        assert(scan(c, p).entities =~= Seq::<EntityModel>::empty());
                        assert(k == es.len());
                        model::lemma_first_where(es, pred);
                    }
                    return Err(TarError::NotFound);
                },
                Some(Err(e)) => {
                    proof {
                        if e != TarError::DeviceError {
                            assert(scan(c, p).entities =~= Seq::<EntityModel>::empty());
                            assert(k == es.len());
                            model::lemma_first_where(es, pred);
                        }
                    }
                    return Err(e);
                },
                Some(Ok(ent)) => {
                    proof {
                        model::lemma_signature_in_range(c, p);
                        assert(scan(c, p).entities == seq![entity_at(c, p)] + scan(
                            c,
                            model::next_offset(c, p),
                        ).entities);
                        assert(es.skip(k).len() >= 1);
                        assert(k < es.len());
                        assert(es.skip(k)[0] == es[k]);
                        assert(ent@ == es[k]);
                    }
                    if paths::str_eq(ent.name.as_str(), path) {
                        proof {
                            assert(pred(es[k]));
                            model::lemma_first_where(es, pred);
                        }
                        return Ok(ent);
                    }
                    proof {
                        let rest = scan(c, model::next_offset(c, p)).entities;
                        assert_seqs_equal!(es.skip(k + 1) == rest, i => {
                            assert(es.skip(k + 1)[i] == es[k + 1 + i]);
                            assert(es.skip(k)[i + 1] == es[k + 1 + i]);
                            assert((seq![entity_at(c, p)] + rest)[i + 1] == rest[i]);
                        });
                        k = k + 1;
                    }
                },
            }
        }
    }

    /// Reads part of an entity's content into the front of `output`:
    /// `position` counts from the start of the content, which begins 512
    /// bytes past the entity's record.  The read is clamped twice, at the
    /// entity's size and at the end of the store, and the clamped count
    /// comes back: reading past the end is not an error.
    pub fn read_file_by_entity(&mut self, entity: &Entity, position: usize, output: &mut Vec<u8>)
        -> (r: Result<usize, TarError>)
        ensures
            final(self).contents() == old(self).contents(),
            final(output)@.len() == old(output)@.len(),
            ({
                let c = old(self).contents();
                match r {
                    Ok(n) => {
                        &&& n as int == model::content_read_len(
                            c,
                            entity@,
                            position as int,
                            old(output)@.len() as int,
                        )
                        &&& final(output)@ == model::content_read_into(
                            c,
                            entity@,
                            position as int,
                            old(output)@,
                        )
                    },
                    Err(e) => e == TarError::DeviceError && final(output)@ == old(output)@,
                }
            }),
    {
        let ghost c = self.contents();
        proof {
            self.lemma_contents_bounded();
        }
        let remaining = if position < entity.size {
            entity.size - position
        } else {
            0
        };
        let olen = output.len();
        let want = if olen < remaining {
            olen
        } else {
            remaining
        };
        let abs_opt = match entity.position.checked_add(512) {
            Some(x) => x.checked_add(position),
            None => None,
        };
        let abs = match abs_opt {
            Some(a) => a,
            None => {
                // The content range starts beyond every addressable
                // offset, so beyond the store: nothing to read.
                proof {
                    assert(final(output)@ =~= model::content_read_into(
                        c,
                        entity@,
                        position as int,
                        old(output)@,
                    ));
                }
                return Ok(0);
            },
        };
        if self.device.seek(abs as u64).is_err() {
            return Err(TarError::DeviceError);
        }
        let mut temp: Vec<u8> = vec![0u8; want];
        let got = match self.device.read(&mut temp) {
            Ok(n) => n,
            Err(_) => {
                return Err(TarError::DeviceError);
            },
        };
        let mut i: usize = 0;
        while i < got
            invariant
                i <= got,
                got <= want <= olen,
                olen == output@.len(),
                olen == old(output)@.len(),
                temp@.len() == want,
                forall|j: int| 0 <= j < got ==> temp@[j] == c[abs + j],
                got == 0 || abs + got <= c.len(),
                forall|j: int|
                    0 <= j < olen ==> output@[j] == (if j < i {
                        c[abs + j]
                    } else {
                        old(output)@[j]
                    }),
            decreases got - i,
        {
            let b = temp[i];
            output[i] = b;
            i = i + 1;
        }
        proof {
            assert(output@ =~= model::content_read_into(c, entity@, position as int, old(output)@));
        }
        Ok(got)
    }

    /// Reads part of a file's content by path: `find_file` composed with
    /// `read_file_by_entity`.
    pub fn read_file(&mut self, path: &str, position: usize, output: &mut Vec<u8>) -> (r: Result<
        usize,
        TarError,
    >)
        ensures
            final(self).contents() == old(self).contents(),
            final(output)@.len() == old(output)@.len(),
            ({
                let c = old(self).contents();
                let s = scan(c, 0);
                let fm = model::first_name_match(s.entities, path@);
                match r {
                    Ok(n) => {
                        &&& fm is Some
                        &&& n as int == model::content_read_len(
                            c,
                            s.entities[fm->0],
                            position as int,
                            old(output)@.len() as int,
                        )
                        &&& final(output)@ == model::content_read_into(
                            c,
                            s.entities[fm->0],
                            position as int,
                            old(output)@,
                        )
                    },
                    Err(e) => {
                        &&& final(output)@ == old(output)@
                        &&& ({
                            ||| (e == TarError::NotFound && s.error is None && fm is None)
                            ||| e == TarError::DeviceError
                            ||| (s.error == Some(e) && fm is None)
                        })
                    },
                }
            }),
    {
        let entity = match self.find_file(path) {
            Ok(e) => e,
            Err(e) => {
                return Err(e);
            },
        };
        self.read_file_by_entity(&entity, position, output)
    }

    /// Reads a file's whole content by path: a buffer of exactly the
    /// entity's size, filled from the store, zero where the store ends
    /// early.
    pub fn read_entire_file(&mut self, path: &str) -> (r: Result<Vec<u8>, TarError>)
        ensures
            final(self).contents() == old(self).contents(),
            ({
                let c = old(self).contents();
                let s = scan(c, 0);
                let fm = model::first_name_match(s.entities, path@);
                match r {
                    Ok(v) => fm is Some && v@ == model::file_content(c, s.entities[fm->0]),
                    Err(e) => {
                        ||| (e == TarError::NotFound && s.error is None && fm is None)
                        ||| e == TarError::DeviceError
                        ||| (s.error == Some(e) && fm is None)
                    },
                }
            }),
    {
        let ghost c = self.contents();
        let entity = match self.find_file(path) {
            Ok(e) => e,
            Err(e) => {
                return Err(e);
            },
        };
        let mut output: Vec<u8> = vec![0u8; entity.size];
        match self.read_file_by_entity(&entity, 0, &mut output) {
            Ok(_) => {
                proof {
                    assert(output@ =~= model::file_content(c, entity@));
                }
                Ok(output)
            },
            Err(e) => Err(e),
        }
    }

    /// Reads a file's whole content by path and decodes it as UTF-8, the
    /// replacement character standing in for invalid sequences.
    pub fn read_to_string(&mut self, path: &str) -> (r: Result<String, TarError>)
        ensures
            final(self).contents() == old(self).contents(),
            ({
                let c = old(self).contents();
                let s = scan(c, 0);
                let fm = model::first_name_match(s.entities, path@);
                match r {
                    Ok(text) => fm is Some && text@ == record::utf8_lossy_decode(
                        model::file_content(c, s.entities[fm->0]),
                    ),
                    Err(e) => {
                        ||| (e == TarError::NotFound && s.error is None && fm is None)
                        ||| e == TarError::DeviceError
                        ||| (s.error == Some(e) && fm is None)
                    },
                }
            }),
    {
        match self.read_entire_file(path) {
            Ok(v) => Ok(record::bytes_to_string_lossy(&v)),
            Err(e) => Err(e),
        }
    }

    /// The store is byte-addressable: its length fits a machine size.
    pub proof fn lemma_contents_bounded(&self)
        ensures
            self.contents().len() <= usize::MAX,
    {
        self.device.lemma_contents_bounded();
    }
}

} // verus!
