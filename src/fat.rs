//! On-disk FAT structures: the 32-byte directory entry and the FAT12/16 boot sector.

use vstd::prelude::*;
use crate::le::{
    le16_at, le16_bytes, le32_at, le32_bytes, lemma_le16_bytes_round_trip,
    lemma_le16_round_trip, lemma_le32_bytes_round_trip, lemma_le32_round_trip, push_le16,
    push_le32, read_le16, read_le32,
};

verus! {

/// A 32-byte FAT directory entry.
#[derive(Debug, Clone, Copy, PartialEq, Eq)]
pub struct DirEntry {
    pub name: [u8; 11],
    pub attributes: u8,
    pub reserved: u8,
    pub creation_time_tenth: u8,
    pub creation_time: u16,
    pub creation_date: u16,
    pub last_access_date: u16,
    pub first_cluster_high: u16,
    pub write_time: u16,
    pub write_date: u16,
    pub first_cluster_low: u16,
    pub file_size: u32,
}

/// The 32 bytes of a directory entry.
pub open spec fn dir_entry_bytes(e: DirEntry) -> Seq<u8> {
    e.name@ + seq![e.attributes, e.reserved, e.creation_time_tenth] + le16_bytes(e.creation_time)
        + le16_bytes(e.creation_date) + le16_bytes(e.last_access_date) + le16_bytes(
        e.first_cluster_high,
    ) + le16_bytes(e.write_time) + le16_bytes(e.write_date) + le16_bytes(e.first_cluster_low)
        + le32_bytes(e.file_size)
}

/// `e` is what the 32 bytes of `b` at `at` decode to.
pub open spec fn dir_entry_decoded(e: DirEntry, b: Seq<u8>, at: int) -> bool {
    &&& e.name@ == b.subrange(at, at + 11)
    &&& e.attributes == b[at + 11]
    &&& e.reserved == b[at + 12]
    &&& e.creation_time_tenth == b[at + 13]
    &&& e.creation_time == le16_at(b, at + 14)
    &&& e.creation_date == le16_at(b, at + 16)
    &&& e.last_access_date == le16_at(b, at + 18)
    &&& e.first_cluster_high == le16_at(b, at + 20)
    &&& e.write_time == le16_at(b, at + 22)
    &&& e.write_date == le16_at(b, at + 24)
    &&& e.first_cluster_low == le16_at(b, at + 26)
    &&& e.file_size == le32_at(b, at + 28)
}

/// Two entries hold the same fields.
pub open spec fn same_dir_entry(a: DirEntry, b: DirEntry) -> bool {
    &&& a.name@ == b.name@
    &&& a.attributes == b.attributes
    &&& a.reserved == b.reserved
    &&& a.creation_time_tenth == b.creation_time_tenth
    &&& a.creation_time == b.creation_time
    &&& a.creation_date == b.creation_date
    &&& a.last_access_date == b.last_access_date
    &&& a.first_cluster_high == b.first_cluster_high
    &&& a.write_time == b.write_time
    &&& a.write_date == b.write_date
    &&& a.first_cluster_low == b.first_cluster_low
    &&& a.file_size == b.file_size
}

impl DirEntry {
    /// The entry's 32 bytes.
    pub fn to_bytes(&self) -> (r: Vec<u8>)
        ensures
            r@ == dir_entry_bytes(*self),
    {
        let mut out: Vec<u8> = Vec::new();
        let mut i: usize = 0;
        while i < 11
            invariant
                i <= 11,
                out@ == self.name@.subrange(0, i as int),
            decreases 11 - i,
        {
            out.push(self.name[i]);
            i += 1;
        }
        assert(out@ =~= self.name@);
        out.push(self.attributes);
        out.push(self.reserved);
        out.push(self.creation_time_tenth);
        push_le16(&mut out, self.creation_time);
        push_le16(&mut out, self.creation_date);
        push_le16(&mut out, self.last_access_date);
        push_le16(&mut out, self.first_cluster_high);
        push_le16(&mut out, self.write_time);
        push_le16(&mut out, self.write_date);
        push_le16(&mut out, self.first_cluster_low);
        push_le32(&mut out, self.file_size);
        assert(out@ =~= dir_entry_bytes(*self));
        out
    }

    /// Decodes the 32 bytes at `at`.
    pub fn from_bytes(b: &[u8], at: usize) -> (r: Self)
        requires
            at + 32 <= b@.len(),
        ensures
            dir_entry_decoded(r, b@, at as int),
    {
        let name = [
            b[at],
            b[at + 1],
            b[at + 2],
            b[at + 3],
            b[at + 4],
            b[at + 5],
            b[at + 6],
            b[at + 7],
            b[at + 8],
            b[at + 9],
            b[at + 10],
        ];
        assert(name@ =~= b@.subrange(at as int, at + 11));
        DirEntry {
            name,
            attributes: b[at + 11],
            reserved: b[at + 12],
            creation_time_tenth: b[at + 13],
            creation_time: read_le16(b, at + 14),
            creation_date: read_le16(b, at + 16),
            last_access_date: read_le16(b, at + 18),
            first_cluster_high: read_le16(b, at + 20),
            write_time: read_le16(b, at + 22),
            write_date: read_le16(b, at + 24),
            first_cluster_low: read_le16(b, at + 26),
            file_size: read_le32(b, at + 28),
        }
    }

    /// The first cluster: the high word above the low word.
    pub fn cluster_value(&self) -> (r: u32)
        ensures
            r == self.first_cluster_high * 65536 + self.first_cluster_low,
    {
        self.first_cluster_high as u32 * 65536 + self.first_cluster_low as u32
    }
}

/// Decoding a serialized entry gives back its fields.
pub proof fn lemma_dir_entry_round_trip(e: DirEntry, d: DirEntry)
    requires
        dir_entry_decoded(d, dir_entry_bytes(e), 0),
    ensures
        same_dir_entry(d, e),
{
    let b = dir_entry_bytes(e);
    assert(b.subrange(0, 11) =~= e.name@);
    assert(b.subrange(14, 16) =~= le16_bytes(e.creation_time));
    assert(b.subrange(16, 18) =~= le16_bytes(e.creation_date));
    assert(b.subrange(18, 20) =~= le16_bytes(e.last_access_date));
    assert(b.subrange(20, 22) =~= le16_bytes(e.first_cluster_high));
    assert(b.subrange(22, 24) =~= le16_bytes(e.write_time));
    assert(b.subrange(24, 26) =~= le16_bytes(e.write_date));
    assert(b.subrange(26, 28) =~= le16_bytes(e.first_cluster_low));
    assert(b.subrange(28, 32) =~= le32_bytes(e.file_size));
    lemma_le16_at_piece(b, 14, e.creation_time);
    lemma_le16_at_piece(b, 16, e.creation_date);
    lemma_le16_at_piece(b, 18, e.last_access_date);
    lemma_le16_at_piece(b, 20, e.first_cluster_high);
    lemma_le16_at_piece(b, 22, e.write_time);
    lemma_le16_at_piece(b, 24, e.write_date);
    lemma_le16_at_piece(b, 26, e.first_cluster_low);
    lemma_le32_round_trip(e.file_size);
    let f = le32_bytes(e.file_size);
    assert(b[28] == f[0] && b[29] == f[1] && b[30] == f[2] && b[31] == f[3]);
}

/// The bytes an entry decodes from are its serialization.
pub proof fn lemma_dir_entry_bytes_round_trip(e: DirEntry, b: Seq<u8>, at: int)
    requires
        0 <= at,
        at + 32 <= b.len(),
        dir_entry_decoded(e, b, at),
    ensures
        dir_entry_bytes(e) == b.subrange(at, at + 32),
{
    lemma_le16_bytes_round_trip(b, at + 14);
    lemma_le16_bytes_round_trip(b, at + 16);
    lemma_le16_bytes_round_trip(b, at + 18);
    lemma_le16_bytes_round_trip(b, at + 20);
    lemma_le16_bytes_round_trip(b, at + 22);
    lemma_le16_bytes_round_trip(b, at + 24);
    lemma_le16_bytes_round_trip(b, at + 26);
    lemma_le32_bytes_round_trip(b, at + 28);
    assert(dir_entry_bytes(e) =~= b.subrange(at, at + 32));
}

proof fn lemma_le16_at_piece(b: Seq<u8>, at: int, v: u16)
    requires
        0 <= at,
        at + 2 <= b.len(),
        b.subrange(at, at + 2) == le16_bytes(v),
    ensures
        le16_at(b, at) == v,
{
    lemma_le16_round_trip(v);
    assert(b[at] == b.subrange(at, at + 2)[0] && b[at + 1] == b.subrange(at, at + 2)[1]);
}

/// A power of two that is a valid bytes-per-sector value: at least 512, at most `0xFFFF`.
pub open spec fn valid_bytes_per_sector(v: int) -> bool {
    v == 512 || v == 1024 || v == 2048 || v == 4096 || v == 8192 || v == 16384 || v == 32768
}

/// A power of two from 1 to 128.
pub open spec fn valid_sectors_per_cluster(v: int) -> bool {
    v == 1 || v == 2 || v == 4 || v == 8 || v == 16 || v == 32 || v == 64 || v == 128
}

/// Fields of the 512-byte FAT12/16 boot sector `b`, by offset.
pub open spec fn bpb_bytes_per_sector(b: Seq<u8>) -> int {
    le16_at(b, 11) as int
}

pub open spec fn bpb_sectors_per_cluster(b: Seq<u8>) -> int {
    b[13] as int
}

pub open spec fn bpb_reserved_sectors(b: Seq<u8>) -> int {
    le16_at(b, 14) as int
}

pub open spec fn bpb_number_of_fats(b: Seq<u8>) -> int {
    b[16] as int
}

pub open spec fn bpb_root_entries(b: Seq<u8>) -> int {
    le16_at(b, 17) as int
}

pub open spec fn bpb_total_sectors_16(b: Seq<u8>) -> int {
    le16_at(b, 19) as int
}

pub open spec fn bpb_fat_size(b: Seq<u8>) -> int {
    le16_at(b, 22) as int
}

pub open spec fn bpb_total_sectors_32(b: Seq<u8>) -> int {
    le32_at(b, 32) as int
}

/// The sector count: the 16-bit field where it is not zero, else the 32-bit one.
pub open spec fn bpb_total_sectors(b: Seq<u8>) -> int {
    if bpb_total_sectors_16(b) != 0 {
        bpb_total_sectors_16(b)
    } else {
        bpb_total_sectors_32(b)
    }
}

/// Sectors of the fixed-size root directory.
pub open spec fn bpb_root_dir_sectors(b: Seq<u8>) -> int {
    (bpb_root_entries(b) * 32 + bpb_bytes_per_sector(b) - 1) / bpb_bytes_per_sector(b)
}

/// The first sector of the data region.
pub open spec fn bpb_first_data_sector(b: Seq<u8>) -> int {
    bpb_reserved_sectors(b) + bpb_number_of_fats(b) * bpb_fat_size(b) + bpb_root_dir_sectors(b)
}

/// Data clusters, numbered from 2.
pub open spec fn bpb_clusters_count(b: Seq<u8>) -> int {
    (bpb_total_sectors(b) - bpb_first_data_sector(b)) / bpb_sectors_per_cluster(b)
}

/// The boot sector's fields are valid: sector and cluster sizes are powers of two in range, at
/// least one FAT, and exactly one of the two sector counts is set.
pub open spec fn bpb_valid(b: Seq<u8>) -> bool {
    &&& b.len() == 512
    &&& valid_bytes_per_sector(bpb_bytes_per_sector(b))
    &&& valid_sectors_per_cluster(bpb_sectors_per_cluster(b))
    &&& bpb_number_of_fats(b) >= 1
    &&& (bpb_total_sectors_16(b) != 0) != (bpb_total_sectors_32(b) != 0)
}

/// A valid boot sector of a FAT12 volume: the regions fit in the volume and there are fewer
/// than 4085 clusters.
pub open spec fn bpb_is_fat12(b: Seq<u8>) -> bool {
    &&& bpb_valid(b)
    &&& bpb_first_data_sector(b) <= bpb_total_sectors(b)
    &&& bpb_clusters_count(b) < 4085
}

/// The 12-bit entry `m` lies within a FAT copy.
pub open spec fn entry_in_fat(b: Seq<u8>, m: int) -> bool {
    m + m / 2 + 1 < bpb_fat_size(b) * bpb_bytes_per_sector(b)
}

/// Each FAT copy has room for an entry per data cluster.
pub open spec fn fat_room(b: Seq<u8>) -> bool {
    bpb_clusters_count(b) + bpb_clusters_count(b) / 2 < bpb_fat_size(b) * bpb_bytes_per_sector(b)
}

/// The FAT12/16 boot sector, held as its 512 identity-mapped bytes.
#[derive(Debug, Clone, PartialEq, Eq)]
pub struct BiosParameterBlock {
    bytes: Vec<u8>,
}

impl View for BiosParameterBlock {
    type V = Seq<u8>;

    closed spec fn view(&self) -> Seq<u8> {
        self.bytes@
    }
}

impl BiosParameterBlock {
    /// The first 512 bytes of `b`; `None` when it is shorter.
    pub fn from_bytes(b: &[u8]) -> (r: Option<Self>)
        ensures
            b@.len() < 512 <==> r is None,
            r matches Some(p) ==> p@ == b@.subrange(0, 512),
    {
        if b.len() < 512 {
            return None;
        }
        let mut bytes: Vec<u8> = Vec::new();
        let mut i: usize = 0;
        while i < 512
            invariant
                i <= 512,
                b@.len() >= 512,
                bytes@ == b@.subrange(0, i as int),
            decreases 512 - i,
        {
            bytes.push(b[i]);
            i += 1;
        }
        Some(BiosParameterBlock { bytes })
    }

    /// The 512 bytes.
    pub fn to_bytes(&self) -> (r: Vec<u8>)
        ensures
            r@ == self@,
    {
        let mut out: Vec<u8> = Vec::new();
        let mut i: usize = 0;
        while i < self.bytes.len()
            invariant
                i <= self.bytes@.len(),
                out@ == self.bytes@.subrange(0, i as int),
            decreases self.bytes@.len() - i,
        {
            out.push(self.bytes[i]);
            i += 1;
        }
        assert(out@ =~= self.bytes@);
        out
    }

    /// A copy that Verus knows to equal `self`.
    pub fn duplicate(&self) -> (r: Self)
        ensures
            r@ == self@,
    {
        BiosParameterBlock { bytes: self.to_bytes() }
    }

    pub fn bytes_per_sector(&self) -> (r: u16)
        requires
            self@.len() == 512,
        ensures
            r == bpb_bytes_per_sector(self@),
    {
        read_le16(self.bytes.as_slice(), 11)
    }

    pub fn sectors_per_cluster(&self) -> (r: u8)
        requires
            self@.len() == 512,
        ensures
            r == bpb_sectors_per_cluster(self@),
    {
        self.bytes[13]
    }

    pub fn reserved_sectors_count(&self) -> (r: u16)
        requires
            self@.len() == 512,
        ensures
            r == bpb_reserved_sectors(self@),
    {
        read_le16(self.bytes.as_slice(), 14)
    }

    pub fn number_of_fats(&self) -> (r: u8)
        requires
            self@.len() == 512,
        ensures
            r == bpb_number_of_fats(self@),
    {
        self.bytes[16]
    }

    pub fn root_entries_count(&self) -> (r: u16)
        requires
            self@.len() == 512,
        ensures
            r == bpb_root_entries(self@),
    {
        read_le16(self.bytes.as_slice(), 17)
    }

    pub fn total_sectors_16(&self) -> (r: u16)
        requires
            self@.len() == 512,
        ensures
            r == bpb_total_sectors_16(self@),
    {
        read_le16(self.bytes.as_slice(), 19)
    }

    pub fn media(&self) -> (r: u8)
        requires
            self@.len() == 512,
        ensures
            r == self@[21],
    {
        self.bytes[21]
    }

    pub fn fat_size(&self) -> (r: u16)
        requires
            self@.len() == 512,
        ensures
            r == bpb_fat_size(self@),
    {
        read_le16(self.bytes.as_slice(), 22)
    }

    pub fn hidden_sectors(&self) -> (r: u32)
        requires
            self@.len() == 512,
        ensures
            r == le32_at(self@, 28),
    {
        read_le32(self.bytes.as_slice(), 28)
    }

    pub fn total_sectors_32(&self) -> (r: u32)
        requires
            self@.len() == 512,
        ensures
            r == bpb_total_sectors_32(self@),
    {
        read_le32(self.bytes.as_slice(), 32)
    }

    /// The sector count, from whichever field is set.
    pub fn total_sectors(&self) -> (r: u32)
        requires
            self@.len() == 512,
        ensures
            r == bpb_total_sectors(self@),
    {
        let t16 = self.total_sectors_16();
        if t16 != 0 {
            t16 as u32
        } else {
            self.total_sectors_32()
        }
    }

    pub fn signature(&self) -> (r: u16)
        requires
            self@.len() == 512,
        ensures
            r == le16_at(self@, 510),
    {
        read_le16(self.bytes.as_slice(), 510)
    }

    /// Checks the fields as `bpb_valid` states.
    pub fn is_valid(&self) -> (r: bool)
        requires
            self@.len() == 512,
        ensures
            r == bpb_valid(self@),
    {
        let bps = self.bytes_per_sector();
        let spc = self.sectors_per_cluster();
        (bps == 512 || bps == 1024 || bps == 2048 || bps == 4096 || bps == 8192 || bps == 16384
            || bps == 32768) && (spc == 1 || spc == 2 || spc == 4 || spc == 8 || spc == 16 || spc
            == 32 || spc == 64 || spc == 128) && self.number_of_fats() >= 1 && ((
        self.total_sectors_16() != 0) != (self.total_sectors_32() != 0))
    }
}

} // verus!
