//! Lookup and iteration over a database image.
//!
//! Every file access goes through a bounds-checked slice; a truncated or
//! adversarial image makes a lookup end early instead of reading out of
//! bounds. `probe_step` and `spec_data_end` state the probe protocol and
//! the full-iteration protocol mathematically; the exec code is proved to
//! follow them step by step.

use vstd::prelude::*;
use vstd::slice::slice_to_vec;

use crate::Error;
use crate::filebuffer::FileBuffer;
use crate::format::{record_at, scan, spec_data_end, word_at, Rec};
use crate::hash::{hash, hash_of};
use crate::uint32::unpack2;

verus! {

/// What the primary header says about the secondary table for `khash`:
/// `(hpos, hslots, kpos)` — the table's offset, its slot count, and the
/// probe's starting offset. All zero when the header slot itself is out
/// of bounds or the table is empty.
pub open spec fn spec_hash_table(b: Seq<u8>, khash: u32) -> (u32, u32, int) {
    let x = ((khash & 0xff) as int) * 8;
    if x + 8 > b.len() {
        (0u32, 0u32, 0int)
    } else {
        let hpos = word_at(b, x);
        let hslots = word_at(b, x + 4);
        let kpos = if hslots > 0 {
            hpos + 8 * (((khash >> 8) as int) % (hslots as int))
        } else {
            0int
        };
        (hpos, hslots, kpos)
    }
}

/// One resumption of the probe protocol: from slot offset `kpos` after
/// `kloop` probes, the value yielded (if any) and the iterator state
/// left behind. Any out-of-bounds access ends the iteration; an empty
/// slot ends it; a slot whose hash matches leads to a record whose key
/// is compared byte for byte.
pub open spec fn probe_step(
    b: Seq<u8>,
    khash: u32,
    key: Seq<u8>,
    kloop: u32,
    kpos: int,
    hpos: u32,
    hslots: u32,
) -> (Option<Seq<u8>>, u32, int)
    decreases hslots - kloop,
{
    if kloop >= hslots {
        (None::<Seq<u8>>, kloop, kpos)
    } else if !(0 <= kpos && kpos + 8 <= b.len()) {
        (None::<Seq<u8>>, kloop, kpos)
    } else {
        let slot_hash = word_at(b, kpos);
        let rpos = word_at(b, kpos + 4) as int;
        if rpos == 0 {
            (None::<Seq<u8>>, kloop, kpos)
        } else {
            let kloop2 = (kloop + 1) as u32;
            let kpos2: int = if kpos + 8 == hpos + 8 * hslots {
                hpos as int
            } else {
                kpos + 8
            };
            if slot_hash == khash {
                if rpos + 8 > b.len() {
                    (None::<Seq<u8>>, kloop2, kpos2)
                } else {
                    let klen = word_at(b, rpos) as int;
                    let dlen = word_at(b, rpos + 4) as int;
                    if klen == key.len() && rpos + 8 + klen <= b.len() && b.subrange(
                        rpos + 8,
                        rpos + 8 + klen,
                    ) == key {
                        if rpos + 8 + klen + dlen <= b.len() {
                            (
                                Some(b.subrange(rpos + 8 + klen, rpos + 8 + klen + dlen)),
                                kloop2,
                                kpos2,
                            )
                        } else {
                            (None::<Seq<u8>>, kloop2, kpos2)
                        }
                    } else {
                        probe_step(b, khash, key, kloop2, kpos2, hpos, hslots)
                    }
                }
            } else {
                probe_step(b, khash, key, kloop2, kpos2, hpos, hslots)
            }
        }
    }
}

/// A reader over a fully resident database image.
pub struct CDB {
    file: FileBuffer,
    size: usize,
}

impl View for CDB {
    type V = Seq<u8>;

    closed spec fn view(&self) -> Seq<u8> {
        self.file@
    }
}

impl CDB {
    #[verifier::type_invariant]
    closed spec fn inv(self) -> bool {
        self.size == self.file@.len()
    }

    /// Wraps an image as a reader after checking that its length can be
    /// a CDB at all: at least a header plus one record plus one slot,
    /// and under 2^32 so that 32-bit offsets cover it.
    pub fn open(file: FileBuffer) -> (r: Result<CDB, Error>)
        ensures
            match r {
                Ok(c) => c@ == file@ && 2064 <= file@.len() <= 0xffffffff,
                Err(e) => e == Error::BadFormat && !(2064 <= file@.len() <= 0xffffffff),
            },
    {
        let len = file.len();
        if len < 2048 + 8 + 8 {
            return Err(Error::BadFormat);
        }
        if len as u64 > 0xffffffff {
            return Err(Error::BadFormat);
        }
        Ok(CDB { size: len, file })
    }

    /// Copies a byte slice and wraps it as a reader, without any length
    /// check: lookups over an undersized image simply find nothing.
    pub fn copy_from_slice(s: &[u8]) -> (r: Result<CDB, Error>)
        ensures
            r matches Ok(c) && c@ == s@,
    {
        let file = FileBuffer::copy_from_slice(s);
        let size = file.len();
        Ok(CDB { size, file })
    }

    /// The bytes in `[pos, pos + len)`, or `None` when that range is
    /// not fully inside the image.
    fn read(&self, len: usize, pos: u64) -> (r: Option<&[u8]>)
        ensures
            match r {
                Some(s) => pos + len <= self@.len() && s@ == self@.subrange(
                    pos as int,
                    pos + len,
                ),
                None => pos + len > self@.len(),
            },
    {
        proof {
            use_type_invariant(self);
        }
        if len <= self.size && pos <= (self.size - len) as u64 {
            let p = pos as usize;
            self.file.slice(p, p + len)
        } else {
            None
        }
    }

    /// Reads the primary header slot for `khash` and computes where the
    /// probe starts.
    fn hash_table(&self, khash: u32) -> (r: (u32, u32, u64))
        ensures
            r.0 == spec_hash_table(self@, khash).0,
            r.1 == spec_hash_table(self@, khash).1,
            r.2 == spec_hash_table(self@, khash).2,
    {
        let x = ((khash & 0xff) as u64) * 8;
        proof {
            assert((khash & 0xff) < 256) by (bit_vector);
        }
        match self.read(8, x) {
            Some(s) => {
                proof {
                    assert(s@.subrange(0, 4) =~= self@.subrange(x as int, x + 4));
                    assert(s@.subrange(4, 8) =~= self@.subrange(x + 4, x + 8));
                }
                let (hpos, hslots) = unpack2(s);
                let kpos: u64 = if hslots > 0 {
                    hpos as u64 + 8 * (((khash >> 8) % hslots) as u64)
                } else {
                    0
                };
                (hpos, hslots, kpos)
            },
            None => (0, 0, 0),
        }
    }

    /// Whether the `key.len()` bytes at `pos` equal `key`.
    fn match_key(&self, key: &[u8], pos: u64) -> (r: bool)
        ensures
            r == (pos + key@.len() <= self@.len() && self@.subrange(pos as int, pos + key@.len())
                == key@),
    {
        match self.read(key.len(), pos) {
            Some(s) => slices_equal(s, key),
            None => false,
        }
    }

    /// The first value stored under `key`, or `None`. Exactly the first
    /// yield of the probe protocol.
    pub fn get(&self, key: &[u8]) -> (r: Option<&[u8]>)
        ensures
            ({
                let ht = spec_hash_table(self@, hash_of(key@));
                let step = probe_step(self@, hash_of(key@), key@, 0, ht.2, ht.0, ht.1);
                match r {
                    Some(v) => step.0 == Some(v@),
                    None => step.0 is None,
                }
            }),
            r matches Some(v) ==> exists|p: int| record_at(self@, p, key@, v@),
    {
        let mut it = self.find(key);
        it.next()
    }

    /// All values stored under `key`, as a resumable probe.
    pub fn find(&self, key: &[u8]) -> (it: CDBValueIter<'_>)
        ensures
            it.image() == self@,
            it.query() == key@,
            it.probes() == 0,
            it.slot_pos() == spec_hash_table(self@, hash_of(key@)).2,
    {
        CDBValueIter::find(self, key)
    }

    /// All records of the data region, in insertion order.
    pub fn iter(&self) -> (it: CDBKeyValueIter<'_>)
        ensures
            it.image() == self@,
            it.pos() == 2048,
    {
        CDBKeyValueIter::start(self)
    }
}

/// Whether two byte slices hold the same bytes.
fn slices_equal(a: &[u8], b: &[u8]) -> (r: bool)
    ensures
        r == (a@ == b@),
{
    if a.len() != b.len() {
        return false;
    }
    let mut i: usize = 0;
    while i < a.len()
        invariant
            0 <= i <= a@.len(),
            a@.len() == b@.len(),
            forall|j: int| 0 <= j < i ==> a@[j] == b@[j],
        decreases a@.len() - i,
    {
        if a[i] != b[i] {
            return false;
        }
        i = i + 1;
    }
    proof {
        assert(a@ =~= b@);
    }
    true
}

/// Iterator over the values stored under one key.
///
/// Holds the paused probe state `(probes done, slot offset)`; each
/// `next` resumes the protocol from there.
pub struct CDBValueIter<'a> {
    cdb: &'a CDB,
    key: Vec<u8>,
    khash: u32,
    kloop: u32,
    kpos: u64,
    hpos: u32,
    hslots: u32,
}

impl<'a> CDBValueIter<'a> {
    #[verifier::type_invariant]
    closed spec fn inv(self) -> bool {
        let ht = spec_hash_table(self.cdb@, self.khash);
        &&& self.khash == hash_of(self.key@)
        &&& self.hpos == ht.0
        &&& self.hslots == ht.1
        &&& self.kloop <= self.hslots
        &&& if self.hslots == 0 {
            self.kpos == 0
        } else {
            self.hpos <= self.kpos < self.hpos + 8 * self.hslots && (self.kpos - self.hpos) % 8
                == 0
        }
    }

    /// The image being searched.
    pub closed spec fn image(&self) -> Seq<u8> {
        self.cdb@
    }

    /// The key being searched for.
    pub closed spec fn query(&self) -> Seq<u8> {
        self.key@
    }

    /// How many slots the probe has visited.
    pub closed spec fn probes(&self) -> u32 {
        self.kloop
    }

    /// File offset of the next slot to visit.
    pub closed spec fn slot_pos(&self) -> int {
        self.kpos as int
    }

    /// Starts a probe for `key`.
    fn find(cdb: &'a CDB, key: &[u8]) -> (it: Self)
        ensures
            it.image() == cdb@,
            it.query() == key@,
            it.probes() == 0,
            it.slot_pos() == spec_hash_table(cdb@, hash_of(key@)).2,
    {
        let khash = hash(key);
        let (hpos, hslots, kpos) = cdb.hash_table(khash);
        proof {
            if hslots > 0 {
                let home = ((khash >> 8) as int) % (hslots as int);
                assert(0 <= home < hslots);
                assert(kpos == hpos + 8 * home);
                assert((kpos - hpos) % 8 == 0);
            }
        }
        CDBValueIter { cdb, key: slice_to_vec(key), khash, kloop: 0, kpos, hpos, hslots }
    }

    /// Resumes the probe: yields the next value stored under the key,
    /// or `None` when the probe ends. Follows `probe_step` exactly.
    pub fn next(&mut self) -> (r: Option<&'a [u8]>)
        ensures
            final(self).image() == old(self).image(),
            final(self).query() == old(self).query(),
            ({
                let ht = spec_hash_table(old(self).image(), hash_of(old(self).query()));
                let step = probe_step(
                    old(self).image(),
                    hash_of(old(self).query()),
                    old(self).query(),
                    old(self).probes(),
                    old(self).slot_pos(),
                    ht.0,
                    ht.1,
                );
                &&& final(self).probes() == step.1
                &&& final(self).slot_pos() == step.2
                &&& match r {
                    Some(v) => step.0 == Some(v@),
                    None => step.0 is None,
                }
            }),
            r matches Some(v) ==> exists|p: int|
                record_at(old(self).image(), p, old(self).query(), v@),
    {
        proof {
            use_type_invariant(&*self);
        }
        while self.kloop < self.hslots
            invariant
                self.cdb@ == old(self).image(),
                self.key@ == old(self).query(),
                self.khash == hash_of(self.key@),
                self.hpos == spec_hash_table(self.cdb@, self.khash).0,
                self.hslots == spec_hash_table(self.cdb@, self.khash).1,
                self.kloop <= self.hslots,
                self.hslots > 0 ==> self.hpos <= self.kpos < self.hpos + 8 * self.hslots && (
                self.kpos - self.hpos) % 8 == 0,
                self.hslots == 0 ==> self.kpos == 0,
                probe_step(
                    self.cdb@,
                    self.khash,
                    self.key@,
                    self.kloop,
                    self.kpos as int,
                    self.hpos,
                    self.hslots,
                ) == probe_step(
                    old(self).image(),
                    hash_of(old(self).query()),
                    old(self).query(),
                    old(self).probes(),
                    old(self).slot_pos(),
                    self.hpos,
                    self.hslots,
                ),
            decreases self.hslots - self.kloop,
        {
            let cdb: &'a CDB = self.cdb;
            let ghost b = cdb@;
            let ghost khash = self.khash;
            let ghost qkey = self.key@;
            let slot = match cdb.read(8, self.kpos) {
                Some(p) => p,
                None => {
                    return None;
                },
            };
            proof {
                assert(slot@.subrange(0, 4) =~= b.subrange(self.kpos as int, self.kpos + 4));
                assert(slot@.subrange(4, 8) =~= b.subrange(self.kpos + 4, self.kpos + 8));
            }
            let (slot_hash, rpos32) = unpack2(slot);
            if rpos32 == 0 {
                return None;
            }
            let ghost old_kloop = self.kloop;
            let ghost old_kpos = self.kpos as int;
            let limit: u64 = self.hpos as u64 + 8 * (self.hslots as u64);
            self.kloop = self.kloop + 1;
            if self.kpos + 8 == limit {
                self.kpos = self.hpos as u64;
            } else {
                self.kpos = self.kpos + 8;
            }
            proof {
                let lim = self.hpos + 8 * (self.hslots as int);
                if old_kpos + 8 == lim {
                    assert(self.kpos == self.hpos);
                } else {
                    assert((self.kpos - self.hpos) % 8 == 0);
                    assert((lim - old_kpos) % 8 == 0);
                    assert(lim - old_kpos >= 8);
                    assert(self.kpos < lim);
                }
            }
            if slot_hash == self.khash {
                let rpos: u64 = rpos32 as u64;
                let rec_head = match cdb.read(8, rpos) {
                    Some(p) => p,
                    None => {
                        return None;
                    },
                };
                proof {
                    assert(rec_head@.subrange(0, 4) =~= b.subrange(rpos as int, rpos + 4));
                    assert(rec_head@.subrange(4, 8) =~= b.subrange(rpos + 4, rpos + 8));
                }
                let (klen, dlen) = unpack2(rec_head);
                if klen as u64 == self.key.len() as u64 && cdb.match_key(
                    self.key.as_slice(),
                    rpos + 8,
                ) {
                    let dpos: u64 = rpos + 8 + klen as u64;
                    let r = cdb.read(dlen as usize, dpos);
                    proof {
                        match r {
                            Some(v) => {
                                assert(record_at(b, rpos as int, qkey, v@));
                            },
                            None => {},
                        }
                    }
                    return r;
                }
            }
        }
        None
    }
}

/// Iterator over every `(key, value)` record of the data region.
pub struct CDBKeyValueIter<'a> {
    cdb: &'a CDB,
    pos: u64,
    data_end: u64,
}

impl<'a> CDBKeyValueIter<'a> {
    #[verifier::type_invariant]
    closed spec fn inv(self) -> bool {
        &&& self.data_end == spec_data_end(self.cdb@)
        &&& self.pos == 2048 || self.pos <= self.data_end
    }

    /// The image being iterated.
    pub closed spec fn image(&self) -> Seq<u8> {
        self.cdb@
    }

    /// File offset of the next record to read.
    pub closed spec fn pos(&self) -> int {
        self.pos as int
    }

    /// Positions the iteration at the start of the data region.
    fn start(cdb: &'a CDB) -> (it: Self)
        ensures
            it.image() == cdb@,
            it.pos() == 2048,
    {
        let data_end: u64 = match cdb.read(4, 0) {
            Some(s) => {
                proof {
                    assert(s@.subrange(0, 4) =~= cdb@.subrange(0, 4));
                }
                let first = crate::uint32::unpack(s);
                let len = cdb.len_u64();
                if (first as u64) <= len {
                    first as u64
                } else {
                    len
                }
            },
            None => 0,
        };
        CDBKeyValueIter { cdb, pos: 2048, data_end }
    }

    /// Reads the record at the current position, or reports why it
    /// cannot: `None` past the data region's end, `BadFormat` for a
    /// record whose declared length runs past it (which also ends the
    /// iteration).
    pub fn next(&mut self) -> (r: Option<Result<(Vec<u8>, Vec<u8>), Error>>)
        ensures
            final(self).image() == old(self).image(),
            ({
                let b = old(self).image();
                let pos = old(self).pos();
                let de = spec_data_end(b);
                if pos + 8 >= de {
                    r is None && final(self).pos() == pos
                } else {
                    let klen = word_at(b, pos) as int;
                    let dlen = word_at(b, pos + 4) as int;
                    if pos + 8 + klen + dlen > de {
                        r == Some(Err::<(Vec<u8>, Vec<u8>), Error>(Error::BadFormat))
                            && final(self).pos() == de
                    } else {
                        &&& r matches Some(Ok(kv)) && kv.0@ == b.subrange(pos + 8, pos + 8 + klen)
                            && kv.1@ == b.subrange(pos + 8 + klen, pos + 8 + klen + dlen)
                        &&& final(self).pos() == pos + 8 + klen + dlen
                    }
                }
            }),
            ({
                let b = old(self).image();
                let pos = old(self).pos();
                let de = spec_data_end(b);
                match r {
                    Some(Ok(kv)) => scan(b, pos, de) == seq![(kv.0@, kv.1@)] + scan(
                        b,
                        final(self).pos(),
                        de,
                    ),
                    Some(Err(_)) => scan(b, pos, de) == Seq::<Rec>::empty(),
                    None => scan(b, pos, de) == Seq::<Rec>::empty(),
                }
            }),
    {
        proof {
            use_type_invariant(&*self);
        }
        let cdb = self.cdb;
        let ghost b = cdb@;
        if self.pos + 8 >= self.data_end {
            return None;
        }
        let head = match cdb.read(8, self.pos) {
            Some(s) => s,
            None => {
                proof {
                    assert(false);
                }
                return None;
            },
        };
        proof {
            assert(head@.subrange(0, 4) =~= b.subrange(self.pos as int, self.pos + 4));
            assert(head@.subrange(4, 8) =~= b.subrange(self.pos + 4, self.pos + 8));
        }
        let (klen, dlen) = unpack2(head);
        if self.pos + 8 + (klen as u64) + (dlen as u64) > self.data_end {
            self.pos = self.data_end;
            return Some(Err(Error::BadFormat));
        }
        let kpos = self.pos + 8;
        let dpos = kpos + klen as u64;
        let key = match cdb.read(klen as usize, kpos) {
            Some(s) => slice_to_vec(s),
            None => {
                proof {
                    assert(false);
                }
                return None;
            },
        };
        let value = match cdb.read(dlen as usize, dpos) {
            Some(s) => slice_to_vec(s),
            None => {
                proof {
                    assert(false);
                }
                return None;
            },
        };
        self.pos = self.pos + 8 + (klen as u64) + (dlen as u64);
        Some(Ok((key, value)))
    }
}

impl CDB {
    /// The image's length as a 64-bit count.
    fn len_u64(&self) -> (n: u64)
        ensures
            n == self@.len(),
    {
        proof {
            use_type_invariant(self);
        }
        self.size as u64
    }
}

} // verus!
