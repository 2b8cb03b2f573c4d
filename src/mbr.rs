//! The MBR partition table: the 512-byte record, and a table held over a borrow tracker that
//! creates partitions and lends them out as sub-devices.

use vstd::prelude::*;
use crate::disk::{
    is_smallest_ge, lemma_smallest_unique, none_ge, refuses_nothing, splice, sector_bytes, Disk, DiskErr, DiskInfos, Permissions,
    SectorSizeView,
};
use crate::wrappers::{
    any_overlap, conflicts, lemma_no_overlap_within, recorded_in, remove_one, sub_io_owed,
    sub_outcome, sub_request_ok, DiskWrapper, SubDisk,
};
use crate::le::{
    le16_at, le16_bytes, le32_at, le32_bytes, lemma_le16_bytes_round_trip,
    lemma_le16_round_trip, lemma_le32_bytes_round_trip, lemma_le32_round_trip, push_le16,
    push_le32, read_le16, read_le32,
};

verus! {

/// The value that marks a valid MBR.
pub const MBR_SIGNATURE: u16 = 0xAA55;

/// One of the four 16-byte partition entries of an MBR.
#[derive(Debug, Clone, Copy, PartialEq, Eq)]
pub struct MbrEntry {
    pub status: u8,
    pub chs_first: [u8; 3],
    pub partition_type: u8,
    pub chs_last: [u8; 3],
    pub lba_first: u32,
    pub sectors: u32,
}

/// The 512-byte MBR record: boot code, four partition entries and the signature.
#[derive(Debug, Clone, PartialEq, Eq)]
pub struct RawMbr {
    bootstrap: Vec<u8>,
    partitions: [MbrEntry; 4],
    signature: u16,
}

/// The 16 bytes of an entry.
pub open spec fn entry_bytes(e: MbrEntry) -> Seq<u8> {
    seq![e.status] + e.chs_first@ + seq![e.partition_type] + e.chs_last@ + le32_bytes(e.lba_first)
        + le32_bytes(e.sectors)
}

/// `e` is what the 16 bytes at `at` of `b` decode to.
pub open spec fn entry_decoded(e: MbrEntry, b: Seq<u8>, at: int) -> bool {
    &&& e.status == b[at]
    &&& e.chs_first@ == b.subrange(at + 1, at + 4)
    &&& e.partition_type == b[at + 4]
    &&& e.chs_last@ == b.subrange(at + 5, at + 8)
    &&& e.lba_first == le32_at(b, at + 8)
    &&& e.sectors == le32_at(b, at + 12)
}

/// The offset of partition entry `i` in the record.
pub open spec fn entry_offset(i: int) -> int {
    446 + 16 * i
}

impl MbrEntry {
    /// The entry of an empty slot: all zeroes.
    pub fn empty() -> (r: Self)
        ensures
            r.status == 0 && r.partition_type == 0 && r.lba_first == 0 && r.sectors == 0,
            r.chs_first@ == seq![0u8, 0u8, 0u8] && r.chs_last@ == seq![0u8, 0u8, 0u8],
    {
        let r = MbrEntry {
            status: 0,
            chs_first: [0, 0, 0],
            partition_type: 0,
            chs_last: [0, 0, 0],
            lba_first: 0,
            sectors: 0,
        };
        assert(r.chs_first@ =~= seq![0u8, 0u8, 0u8]);
        assert(r.chs_last@ =~= seq![0u8, 0u8, 0u8]);
        r
    }

    /// Appends the entry's 16 bytes.
    pub fn write_to(&self, out: &mut Vec<u8>)
        ensures
            final(out)@ == old(out)@ + entry_bytes(*self),
    {
        out.push(self.status);
        out.push(self.chs_first[0]);
        out.push(self.chs_first[1]);
        out.push(self.chs_first[2]);
        out.push(self.partition_type);
        out.push(self.chs_last[0]);
        out.push(self.chs_last[1]);
        out.push(self.chs_last[2]);
        push_le32(out, self.lba_first);
        push_le32(out, self.sectors);
        assert(final(out)@ =~= old(out)@ + entry_bytes(*self));
    }

    /// Decodes the entry whose 16 bytes begin at `at`.
    pub fn read_from(buf: &[u8], at: usize) -> (r: Self)
        requires
            at + 16 <= buf@.len(),
        ensures
            entry_decoded(r, buf@, at as int),
    {
        let r = MbrEntry {
            status: buf[at],
            chs_first: [buf[at + 1], buf[at + 2], buf[at + 3]],
            partition_type: buf[at + 4],
            chs_last: [buf[at + 5], buf[at + 6], buf[at + 7]],
            lba_first: read_le32(buf, at + 8),
            sectors: read_le32(buf, at + 12),
        };
        assert(r.chs_first@ =~= buf@.subrange(at + 1, at + 4));
        assert(r.chs_last@ =~= buf@.subrange(at + 5, at + 8));
        r
    }
}

/// Decoding an entry's bytes gives the entry back, and the bytes an entry decodes from are its
/// encoding.
pub proof fn lemma_entry_round_trip(e: MbrEntry, b: Seq<u8>, at: int)
    ensures
        entry_bytes(e).len() == 16,
        entry_decoded(e, entry_bytes(e), 0),
        0 <= at && at + 16 <= b.len() && entry_decoded(e, b, at) ==> entry_bytes(e) == b.subrange(
            at,
            at + 16,
        ),
{
    let eb = entry_bytes(e);
    assert(eb.len() == 16);
    lemma_le32_round_trip(e.lba_first);
    lemma_le32_round_trip(e.sectors);
    assert(eb.subrange(8, 12) =~= le32_bytes(e.lba_first));
    assert(eb.subrange(12, 16) =~= le32_bytes(e.sectors));
    assert(le32_at(eb, 8) == le32_at(le32_bytes(e.lba_first), 0));
    assert(le32_at(eb, 12) == le32_at(le32_bytes(e.sectors), 0));
    assert(eb.subrange(1, 4) =~= e.chs_first@);
    assert(eb.subrange(5, 8) =~= e.chs_last@);
    if 0 <= at && at + 16 <= b.len() && entry_decoded(e, b, at) {
        lemma_le32_bytes_round_trip(b, at + 8);
        lemma_le32_bytes_round_trip(b, at + 12);
        assert(eb =~= b.subrange(at, at + 16));
    }
}

impl RawMbr {
    /// The boot code is 446 bytes long.
    pub open spec fn wf(&self) -> bool {
        &&& self.spec_bootstrap().len() == 446
        &&& self.spec_partitions().len() == 4
    }

    pub closed spec fn spec_bootstrap(&self) -> Seq<u8> {
        self.bootstrap@
    }

    pub closed spec fn spec_partitions(&self) -> Seq<MbrEntry> {
        self.partitions@
    }

    pub closed spec fn spec_signature(&self) -> u16 {
        self.signature
    }

    /// The record's 512 bytes.
    pub open spec fn spec_bytes(&self) -> Seq<u8> {
        self.spec_bootstrap() + entry_bytes(self.spec_partitions()[0]) + entry_bytes(
            self.spec_partitions()[1],
        ) + entry_bytes(self.spec_partitions()[2]) + entry_bytes(self.spec_partitions()[3])
            + le16_bytes(self.spec_signature())
    }

    /// The record is what the first 512 bytes of `b` decode to.
    pub open spec fn decoded_from(&self, b: Seq<u8>) -> bool {
        &&& self.spec_bootstrap() == b.subrange(0, 446)
        &&& forall|i: int|
            0 <= i < 4 ==> entry_decoded(
                #[trigger] self.spec_partitions()[i],
                b,
                entry_offset(i),
            )
        &&& self.spec_signature() == le16_at(b, 510)
    }

    /// A record with zeroed boot code, four empty entries and a valid signature.
    pub fn new_empty() -> (r: Self)
        ensures
            r.wf(),
            r.spec_bootstrap() == Seq::new(446, |i: int| 0u8),
            forall|i: int| 0 <= i < 4 ==> #[trigger] r.spec_partitions()[i] == MbrEntry::empty_spec(),
            r.spec_signature() == MBR_SIGNATURE,
    {
        let bootstrap = vec![0u8; 446];
        assert(bootstrap@ =~= Seq::new(446, |i: int| 0u8));
        let e = MbrEntry::empty();
        proof {
            assert(e.chs_first == MbrEntry::empty_spec().chs_first);
            assert(e.chs_last == MbrEntry::empty_spec().chs_last);
        }
        RawMbr { bootstrap, partitions: [e, e, e, e], signature: MBR_SIGNATURE }
    }

    /// The partition entry in slot `i`.
    pub fn entry(&self, i: usize) -> (r: MbrEntry)
        requires
            i < 4,
        ensures
            r == self.spec_partitions()[i as int],
    {
        self.partitions[i]
    }

    /// The signature field.
    pub fn signature(&self) -> (r: u16)
        ensures
            r == self.spec_signature(),
    {
        self.signature
    }

    /// Serializes the record into its 512 bytes.
    pub fn to_bytes(&self) -> (r: Vec<u8>)
        requires
            self.wf(),
        ensures
            r@ == self.spec_bytes(),
            r@.len() == 512,
    {
        let mut out: Vec<u8> = Vec::new();
        let mut i: usize = 0;
        while i < 446
            invariant
                i <= 446,
                self.bootstrap@.len() == 446,
                out@ == self.bootstrap@.subrange(0, i as int),
            decreases 446 - i,
        {
            out.push(self.bootstrap[i]);
            i += 1;
        }
        assert(out@ =~= self.bootstrap@);
        self.partitions[0].write_to(&mut out);
        self.partitions[1].write_to(&mut out);
        self.partitions[2].write_to(&mut out);
        self.partitions[3].write_to(&mut out);
        push_le16(&mut out, self.signature);
        proof {
            lemma_entry_round_trip(self.partitions@[0], out@, 0);
            lemma_entry_round_trip(self.partitions@[1], out@, 0);
            lemma_entry_round_trip(self.partitions@[2], out@, 0);
            lemma_entry_round_trip(self.partitions@[3], out@, 0);
        }
        out
    }

    /// Decodes the first 512 bytes of `buf`; `None` when it is shorter.
    pub fn from_bytes(buf: &[u8]) -> (r: Option<Self>)
        ensures
            buf@.len() < 512 <==> r is None,
            r matches Some(m) ==> m.wf() && m.decoded_from(buf@) && m.spec_bytes() == buf@.subrange(
                0,
                512,
            ),
    {
        if buf.len() < 512 {
            return None;
        }
        let mut bootstrap: Vec<u8> = Vec::new();
        let mut i: usize = 0;
        while i < 446
            invariant
                i <= 446,
                buf@.len() >= 512,
                bootstrap@ == buf@.subrange(0, i as int),
            decreases 446 - i,
        {
            bootstrap.push(buf[i]);
            i += 1;
        }
        let e0 = MbrEntry::read_from(buf, 446);
        let e1 = MbrEntry::read_from(buf, 462);
        let e2 = MbrEntry::read_from(buf, 478);
        let e3 = MbrEntry::read_from(buf, 494);
        let signature = read_le16(buf, 510);
        let m = RawMbr { bootstrap, partitions: [e0, e1, e2, e3], signature };
        proof {
            lemma_decoded_prefix(m, buf@);
        }
        Some(m)
    }
}

impl MbrEntry {
    pub open spec fn empty_spec() -> MbrEntry {
        MbrEntry {
            status: 0,
            chs_first: [0u8, 0u8, 0u8],
            partition_type: 0,
            chs_last: [0u8, 0u8, 0u8],
            lba_first: 0,
            sectors: 0,
        }
    }
}

proof fn lemma_decoded_prefix(m: RawMbr, b: Seq<u8>)
    requires
        b.len() >= 512,
        m.spec_bootstrap() == b.subrange(0, 446),
        entry_decoded(m.spec_partitions()[0], b, 446),
        entry_decoded(m.spec_partitions()[1], b, 462),
        entry_decoded(m.spec_partitions()[2], b, 478),
        entry_decoded(m.spec_partitions()[3], b, 494),
        m.spec_signature() == le16_at(b, 510),
    ensures
        m.wf(),
        m.decoded_from(b),
        m.spec_bytes() == b.subrange(0, 512),
{
    let c = b.subrange(0, 512);
    assert forall|i: int| 0 <= i < 4 implies entry_decoded(
        #[trigger] m.spec_partitions()[i],
        b,
        entry_offset(i),
    ) by {
        if i == 0 {
        } else if i == 1 {
        } else if i == 2 {
        } else {
        }
    }
    assert forall|i: int| 0 <= i < 4 implies entry_decoded(
        #[trigger] m.spec_partitions()[i],
        c,
        entry_offset(i),
    ) by {
        let at = entry_offset(i);
        assert(entry_decoded(m.spec_partitions()[i], b, at));
        assert(c.subrange(at + 1, at + 4) =~= b.subrange(at + 1, at + 4));
        assert(c.subrange(at + 5, at + 8) =~= b.subrange(at + 5, at + 8));
    }
    assert(c.subrange(0, 446) =~= b.subrange(0, 446));
    lemma_mbr_round_trip(m, c);
}

/// The pieces of a record's 512 bytes, by offset.
proof fn lemma_mbr_layout(m: RawMbr)
    requires
        m.wf(),
    ensures
        m.spec_bytes().len() == 512,
        m.spec_bytes().subrange(0, 446) == m.spec_bootstrap(),
        forall|i: int|
            0 <= i < 4 ==> m.spec_bytes().subrange(entry_offset(i), entry_offset(i) + 16)
                == entry_bytes(#[trigger] m.spec_partitions()[i]),
        m.spec_bytes().subrange(510, 512) == le16_bytes(m.spec_signature()),
{
    let p = m.spec_partitions();
    let out = m.spec_bytes();
    lemma_entry_round_trip(p[0], out, 0);
    lemma_entry_round_trip(p[1], out, 0);
    lemma_entry_round_trip(p[2], out, 0);
    lemma_entry_round_trip(p[3], out, 0);
    assert(out.len() == 512);
    assert(out.subrange(0, 446) =~= m.spec_bootstrap());
    assert(out.subrange(446, 462) =~= entry_bytes(p[0]));
    assert(out.subrange(462, 478) =~= entry_bytes(p[1]));
    assert(out.subrange(478, 494) =~= entry_bytes(p[2]));
    assert(out.subrange(494, 510) =~= entry_bytes(p[3]));
    assert(out.subrange(510, 512) =~= le16_bytes(m.spec_signature()));
    assert forall|i: int|
        0 <= i < 4 implies out.subrange(entry_offset(i), entry_offset(i) + 16) == entry_bytes(
        #[trigger] p[i],
    ) by {
        if i == 0 {
        } else if i == 1 {
        } else if i == 2 {
        } else {
        }
    }
}

/// An entry whose 16 bytes sit at `at` of `out` decodes from there.
proof fn lemma_entry_in_place(e: MbrEntry, out: Seq<u8>, at: int)
    requires
        0 <= at,
        at + 16 <= out.len(),
        out.subrange(at, at + 16) == entry_bytes(e),
    ensures
        entry_decoded(e, out, at),
{
    let eb = entry_bytes(e);
    lemma_entry_round_trip(e, out, at);
    assert(entry_decoded(e, eb, 0));
    assert(out.subrange(at + 1, at + 4) =~= eb.subrange(1, 4));
    assert(out.subrange(at + 5, at + 8) =~= eb.subrange(5, 8));
    assert(out[at] == eb[0] && out[at + 4] == eb[4]);
    assert(out[at + 8] == eb[8] && out[at + 9] == eb[9] && out[at + 10] == eb[10] && out[at + 11] == eb[11]);
    assert(out[at + 12] == eb[12] && out[at + 13] == eb[13] && out[at + 14] == eb[14] && out[at + 15] == eb[15]);
}

/// Serializing a decoded record gives back the 512 bytes it was decoded from, and decoding a
/// serialized record gives back the record.
pub proof fn lemma_mbr_round_trip(m: RawMbr, b: Seq<u8>)
    requires
        m.wf(),
    ensures
        m.spec_bytes().len() == 512,
        m.decoded_from(m.spec_bytes()),
        b.len() == 512 && m.decoded_from(b) ==> m.spec_bytes() == b,
{
    let p = m.spec_partitions();
    let out = m.spec_bytes();
    lemma_mbr_layout(m);
    assert forall|i: int| 0 <= i < 4 implies entry_decoded(
        #[trigger] m.spec_partitions()[i],
        out,
        entry_offset(i),
    ) by {
        lemma_entry_in_place(p[i], out, entry_offset(i));
    }
    lemma_le16_round_trip(m.spec_signature());
    assert(out[510] == out.subrange(510, 512)[0] && out[511] == out.subrange(510, 512)[1]);
    if b.len() == 512 && m.decoded_from(b) {
        lemma_le16_bytes_round_trip(b, 510);
        lemma_entry_round_trip(p[0], b, 446);
        lemma_entry_round_trip(p[1], b, 462);
        lemma_entry_round_trip(p[2], b, 478);
        lemma_entry_round_trip(p[3], b, 494);
        assert(entry_decoded(p[0], b, entry_offset(0)));
        assert(entry_decoded(p[1], b, entry_offset(1)));
        assert(entry_decoded(p[2], b, entry_offset(2)));
        assert(entry_decoded(p[3], b, entry_offset(3)));
        assert(out.subrange(446, 462) == b.subrange(446, 462));
        assert(out.subrange(462, 478) == b.subrange(462, 478));
        assert(out.subrange(478, 494) == b.subrange(478, 494));
        assert(out.subrange(494, 510) == b.subrange(494, 510));
        assert(out =~= b.subrange(0, 446) + b.subrange(446, 462) + b.subrange(462, 478) + b.subrange(478, 494)
            + b.subrange(494, 510) + b.subrange(510, 512));
        assert(out =~= b);
    }
}

/// `n` zero bytes.
pub open spec fn zeros(n: int) -> Seq<u8> {
    Seq::new(n as nat, |i: int| 0u8)
}

/// The smallest supported sector size of at least 512 bytes, or `UnsupportedDiskSectorSize`.
fn mbr_sector_size(infos: &DiskInfos) -> (r: Result<usize, DiskErr>)
    ensures
        r matches Ok(s) ==> is_smallest_ge(infos.sector_size@, 512, infos.disk_size as int, s as int),
        r is Err ==> r == Err::<usize, DiskErr>(DiskErr::UnsupportedDiskSectorSize) && none_ge(
            infos.sector_size@,
            512,
            infos.disk_size as int,
        ),
{
    match infos.sector_size.minimal_ge(512, infos.disk_size) {
        Some(s) => Ok(s),
        None => Err(DiskErr::UnsupportedDiskSectorSize),
    }
}

impl RawMbr {
    /// Writes the record at the start of sector 0, padded with zeroes to the smallest supported
    /// sector size of at least 512 bytes.
    pub fn write_to_disk<T: Disk>(&self, disk: &mut T) -> (r: Result<(), DiskErr>)
        requires
            self.wf(),
            old(disk).wf(),
        ensures
            final(disk).wf(),
            final(disk).infos() == old(disk).infos(),
            none_ge(old(disk).infos().sector_size, 512, old(disk).infos().disk_size as int) ==> r is Err
                && *final(disk) == *old(disk),
            none_ge(old(disk).infos().sector_size, 512, old(disk).infos().disk_size as int)
                && old(disk).reliable() ==> r == Err::<(), DiskErr>(DiskErr::UnsupportedDiskSectorSize),
            old(disk).reliable() && old(disk).infos().permissions.write && !none_ge(
                old(disk).infos().sector_size,
                512,
                old(disk).infos().disk_size as int,
            ) && (forall|s: int|
                #[trigger] is_smallest_ge(old(disk).infos().sector_size, 512, old(disk).infos().disk_size as int, s)
                    ==> !old(disk).refuses(0, s, true)) ==> r is Ok,
            final(disk).reliable() == old(disk).reliable(),
            forall|s: int, l: int, w: bool| #[trigger] final(disk).refuses(s, l, w) == old(disk).refuses(
                s,
                l,
                w,
            ),
            r is Ok ==> exists|s: int|
                is_smallest_ge(old(disk).infos().sector_size, 512, old(disk).infos().disk_size as int, s)
                    && final(disk).contents() == splice(
                    old(disk).contents(),
                    0,
                    self.spec_bytes() + zeros(s - 512),
                ),
    {
        let infos = disk.disk_infos()?;
        let ss = mbr_sector_size(&infos)?;
        let mut sector = self.to_bytes();
        while sector.len() < ss
            invariant
                512 <= sector@.len() <= ss,
                sector@ == self.spec_bytes() + zeros(sector@.len() - 512),
            decreases ss - sector@.len(),
        {
            sector.push(0);
            assert(sector@ =~= self.spec_bytes() + zeros(sector@.len() - 512));
        }
        proof {
            lemma_smallest_unique(old(disk).infos().sector_size, old(disk).infos().disk_size as int, ss as int);
        }
        let r = disk.write_sector(0, sector.as_slice());
        proof {
            if r is Ok {
                assert(is_smallest_ge(old(disk).infos().sector_size, 512, old(disk).infos().disk_size as int, ss as int));
            }
        }
        r
    }

    /// Reads the record from the start of sector 0, read at the smallest supported sector size
    /// of at least 512 bytes.
    pub fn read_from_disk<T: Disk>(disk: &T) -> (r: Result<Self, DiskErr>)
        requires
            disk.wf(),
        ensures
            none_ge(disk.infos().sector_size, 512, disk.infos().disk_size as int) ==> r is Err,
            disk.reliable() && disk.infos().permissions.read && !none_ge(
                disk.infos().sector_size,
                512,
                disk.infos().disk_size as int,
            ) && (forall|s: int|
                #[trigger] is_smallest_ge(disk.infos().sector_size, 512, disk.infos().disk_size as int, s)
                    ==> !disk.refuses(0, s, false)) ==> r is Ok,
            r matches Ok(m) ==> m.wf() && m.spec_bytes() == disk.contents().subrange(0, 512)
                && m.spec_signature() == le16_at(disk.contents(), 510),
    {
        let infos = match disk.disk_infos() {
            Ok(i) => i,
            Err(e) => {
                return Err(e);
            },
        };
        let ss = match mbr_sector_size(&infos) {
            Ok(s) => s,
            Err(e) => {
                return Err(e);
            },
        };
        proof {
            lemma_smallest_unique(disk.infos().sector_size, disk.infos().disk_size as int, ss as int);
        }
        let mut sector = vec![0u8; ss];
        match disk.read_sector(0, &mut sector) {
            Ok(()) => {},
            Err(e) => {
                return Err(e);
            },
        }
        proof {
            disk.lemma_contents_len();
        }
        match RawMbr::from_bytes(sector.as_slice()) {
            Some(m) => {
                proof {
                    lemma_sector_prefix(sector@, disk.contents(), ss as int);
                }
                Ok(m)
            },
            None => Err(DiskErr::IOErr),
        }
    }
}

proof fn lemma_sector_prefix(sector: Seq<u8>, c: Seq<u8>, ss: int)
    requires
        512 <= ss <= c.len(),
        sector == sector_bytes(c, 0, ss),
    ensures
        sector.subrange(0, 512) == c.subrange(0, 512),
        le16_at(sector, 510) == le16_at(c, 510),
{
    assert(sector.subrange(0, 512) =~= c.subrange(0, 512));
    assert(sector[510] == c[510] && sector[511] == c[511]);
}

/// The partition type code of an entry.
pub type PartitionType = u8;

/// Empty partition, denotes free space.
pub const EMPTY: PartitionType = 0x00;

/// HPFS/NTFS/exFAT.
pub const EXFAT: PartitionType = 0x07;

/// HPFS/NTFS/exFAT.
pub const HPFS: PartitionType = 0x07;

/// HPFS/NTFS/exFAT.
pub const NTFS: PartitionType = 0x07;

/// What a partition slot holds, with the table's sector size.
#[derive(Debug, Clone, Copy, PartialEq, Eq)]
pub struct PartitionInfos {
    pub lba_start: usize,
    pub size: usize,
    pub sector_size: usize,
    pub partition_type: PartitionType,
}

/// The sectors `[lba_first, lba_first + sectors)` of entry `e` overlap `[start, end)`.
pub open spec fn entry_overlaps(e: MbrEntry, start: int, end: int) -> bool {
    e.lba_first < end && start < e.lba_first + e.sectors
}

/// Some slot of the table overlaps `[start, end)`.
pub open spec fn table_overlaps(p: Seq<MbrEntry>, start: int, end: int) -> bool {
    exists|i: int| 0 <= i < 4 && #[trigger] entry_overlaps(p[i], start, end)
}

/// An MBR partition table held in memory over a device, with its sector size.
pub struct GenericMbr<D: Disk> {
    raw: RawMbr,
    disk: DiskWrapper<D>,
    sector_size: usize,
}

impl<D: Disk> GenericMbr<D> {
    pub open spec fn wf(&self) -> bool {
        &&& self.spec_raw().wf()
        &&& self.spec_disk().wf()
        &&& self.spec_sector_size() >= 512
        &&& self.spec_disk().infos().sector_size.supports(
            self.spec_sector_size() as int,
            self.spec_disk().infos().disk_size as int,
        )
    }

    pub closed spec fn spec_raw(&self) -> RawMbr {
        self.raw
    }

    pub closed spec fn spec_disk(&self) -> DiskWrapper<D> {
        self.disk
    }

    pub closed spec fn spec_sector_size(&self) -> usize {
        self.sector_size
    }

    /// A new table in memory, not written to the device: zeroed boot code, four empty slots
    /// and a valid signature. The sector size is the given one, which must be at least 512
    /// bytes and supported, or else the smallest supported one of at least 512 bytes.
    pub fn new(disk: D, sector_size: Option<usize>) -> (r: Result<Self, DiskErr>)
        requires
            disk.wf(),
        ensures
            r matches Ok(m) ==> {
                &&& m.wf()
                &&& m.spec_disk().inner() == disk
                &&& m.spec_disk().infos() == disk.infos()
                &&& m.spec_disk().contents() == disk.contents()
                &&& m.spec_disk().reliable() == disk.reliable()
                &&& m.spec_disk().readers().len() == 0 && m.spec_disk().writers().len() == 0
                &&& m.spec_raw().spec_bootstrap() == zeros(446)
                &&& forall|i: int| 0 <= i < 4 ==> #[trigger] m.spec_raw().spec_partitions()[i]
                    == MbrEntry::empty_spec()
                &&& m.spec_raw().spec_signature() == MBR_SIGNATURE
                &&& chosen_sector_size(disk.infos().sector_size, disk.infos().disk_size as int, sector_size, m.spec_sector_size() as int)
            },
            no_sector_size(disk.infos().sector_size, disk.infos().disk_size as int, sector_size) ==> r is Err,
            disk.reliable() && !no_sector_size(
                disk.infos().sector_size,
                disk.infos().disk_size as int,
                sector_size,
            ) ==> r is Ok,
    {
        let infos = disk.disk_infos()?;
        let ss = choose_sector_size(&infos, sector_size)?;
        let disk = DiskWrapper::new(disk)?;
        let raw = RawMbr::new_empty();
        assert(raw.spec_bootstrap() =~= zeros(446));
        Ok(GenericMbr { raw, disk, sector_size: ss })
    }

    /// Reads the table from the device: `None` when the signature is not `0xAA55`. The sector
    /// size is chosen as in `new`; the record itself is read at the smallest supported sector
    /// size of at least 512 bytes.
    pub fn read_from_disk(disk: D, sector_size: Option<usize>) -> (r: Result<Option<Self>, DiskErr>)
        requires
            disk.wf(),
        ensures
            no_sector_size(disk.infos().sector_size, disk.infos().disk_size as int, sector_size) ==> r is Err,
            disk.reliable() && disk.infos().permissions.read && !no_sector_size(
                disk.infos().sector_size,
                disk.infos().disk_size as int,
                sector_size,
            ) && !none_ge(disk.infos().sector_size, 512, disk.infos().disk_size as int) && refuses_nothing(
                &disk,
            ) ==> r is Ok,
            r matches Ok(Some(m)) ==> {
                &&& m.wf()
                &&& m.spec_disk().inner() == disk
                &&& m.spec_disk().infos() == disk.infos()
                &&& m.spec_disk().contents() == disk.contents()
                &&& m.spec_disk().reliable() == disk.reliable()
                &&& m.spec_disk().readers().len() == 0 && m.spec_disk().writers().len() == 0
                &&& m.spec_raw().spec_bytes() == disk.contents().subrange(0, 512)
                &&& m.spec_raw().spec_signature() == MBR_SIGNATURE
                &&& chosen_sector_size(disk.infos().sector_size, disk.infos().disk_size as int, sector_size, m.spec_sector_size() as int)
            },
            r matches Ok(None) ==> le16_at(disk.contents(), 510) != MBR_SIGNATURE,
    {
        let infos = disk.disk_infos()?;
        let ss = choose_sector_size(&infos, sector_size)?;
        let raw = RawMbr::read_from_disk(&disk)?;
        if raw.signature == MBR_SIGNATURE {
            let disk = DiskWrapper::new(disk)?;
            Ok(Some(GenericMbr { raw, disk, sector_size: ss }))
        } else {
            Ok(None)
        }
    }

    /// Writes the table to sector 0 of the device.
    pub fn write(&mut self) -> (r: Result<(), DiskErr>)
        requires
            old(self).wf(),
        ensures
            final(self).wf(),
            final(self).spec_raw() == old(self).spec_raw(),
            final(self).spec_sector_size() == old(self).spec_sector_size(),
            final(self).spec_disk().infos() == old(self).spec_disk().infos(),
            write_owed(old(self).spec_disk(), old(self).spec_sector_size() as int) ==> r is Ok,
            final(self).spec_disk().reliable() == old(self).spec_disk().reliable(),
            r is Ok ==> exists|s: int|
                is_smallest_ge(old(self).spec_disk().infos().sector_size, 512, old(self).spec_disk().infos().disk_size as int, s)
                    && final(self).spec_disk().contents() == splice(
                    old(self).spec_disk().contents(),
                    0,
                    old(self).spec_raw().spec_bytes() + zeros(s - 512),
                ),
    {
        proof {
            self.disk.lemma_tracker_spec();
            let ss = self.sector_size as int;
            if write_owed(self.disk, ss) {
                let cap = self.disk.infos().sector_size;
                let d = self.disk.infos().disk_size as int;
                assert(!none_ge(cap, 512, d)) by {
                    assert(cap.supports(ss, d));
                }
                assert forall|s0: int| #[trigger] is_smallest_ge(cap, 512, d, s0) implies !self.disk.refuses(0, s0, true) by {
                    if s0 > ss {
                        assert(!cap.supports(ss, d));
                    }
                    lemma_no_overlap_within(self.disk.writers(), 0, s0, ss);
                    lemma_no_overlap_within(self.disk.readers(), 0, s0, ss);
                    assert(!self.disk.inner().refuses(0, s0, true));
                }
            }
        }
        self.raw.write_to_disk(&mut self.disk)
    }

    /// The size in sectors of slot `i`, if it exists.
    pub fn partition_size(&self, i: usize) -> (r: Option<usize>)
        ensures
            i >= 4 ==> r is None,
            i < 4 ==> r == Some(self.spec_raw().spec_partitions()[i as int].sectors as usize),
    {
        if i >= 4 {
            None
        } else {
            Some(self.raw.partitions[i].sectors as usize)
        }
    }

    /// The first sector of slot `i`, if it exists.
    pub fn partition_start(&self, i: usize) -> (r: Option<usize>)
        ensures
            i >= 4 ==> r is None,
            i < 4 ==> r == Some(self.spec_raw().spec_partitions()[i as int].lba_first as usize),
    {
        if i >= 4 {
            None
        } else {
            Some(self.raw.partitions[i].lba_first as usize)
        }
    }

    /// The type code of slot `i`, if it exists.
    pub fn partition_type(&self, i: usize) -> (r: Option<PartitionType>)
        ensures
            i >= 4 ==> r is None,
            i < 4 ==> r == Some(self.spec_raw().spec_partitions()[i as int].partition_type),
    {
        if i >= 4 {
            None
        } else {
            Some(self.raw.partitions[i].partition_type)
        }
    }

    /// Start, size and type of slot `i`, with the table's sector size, if the slot exists.
    pub fn partition_infos(&self, i: usize) -> (r: Option<PartitionInfos>)
        ensures
            i >= 4 ==> r is None,
            i < 4 ==> r == Some(
                PartitionInfos {
                    lba_start: self.spec_raw().spec_partitions()[i as int].lba_first as usize,
                    size: self.spec_raw().spec_partitions()[i as int].sectors as usize,
                    sector_size: self.spec_sector_size(),
                    partition_type: self.spec_raw().spec_partitions()[i as int].partition_type,
                },
            ),
    {
        if i >= 4 {
            None
        } else {
            let e = self.raw.partitions[i];
            Some(
                PartitionInfos {
                    lba_start: e.lba_first as usize,
                    size: e.sectors as usize,
                    sector_size: self.sector_size,
                    partition_type: e.partition_type,
                },
            )
        }
    }

    /// The table's sector size in bytes.
    pub fn sector_size(&self) -> (r: usize)
        ensures
            r == self.spec_sector_size(),
    {
        self.sector_size
    }

    /// Writes slot `i` as an active partition of `size` sectors from sector `start`, with zeroed
    /// CHS fields. Fails with `InvalidPartitionIndex` for a slot outside `0..4`, with
    /// `SpaceAlreadyInUse` when `start` is 0 (the sector of the MBR itself) or the range
    /// overlaps a slot's, then with `InvalidSectorIndex` when the partition would end past the
    /// device or past what 32 bits of sectors can say.
    pub fn create_partition(
        &mut self,
        i: usize,
        start: usize,
        size: usize,
        partition_type: PartitionType,
    ) -> (r: Result<(), DiskErr>)
        requires
            old(self).wf(),
        ensures
            final(self).wf(),
            final(self).spec_disk() == old(self).spec_disk(),
            final(self).spec_sector_size() == old(self).spec_sector_size(),
            final(self).spec_raw().spec_bootstrap() == old(self).spec_raw().spec_bootstrap(),
            final(self).spec_raw().spec_signature() == old(self).spec_raw().spec_signature(),
            i >= 4 ==> r == Err::<(), DiskErr>(DiskErr::InvalidPartitionIndex),
            i < 4 && start == 0 ==> r == Err::<(), DiskErr>(DiskErr::SpaceAlreadyInUse),
            i < 4 && start != 0 && table_overlaps(
                old(self).spec_raw().spec_partitions(),
                start as int,
                start + size,
            ) ==> r == Err::<(), DiskErr>(DiskErr::SpaceAlreadyInUse),
            i < 4 && start != 0 && !table_overlaps(
                old(self).spec_raw().spec_partitions(),
                start as int,
                start + size,
            ) && !partition_fits(
                start + size,
                old(self).spec_sector_size() as int,
                old(self).spec_disk().infos().disk_size as int,
            ) ==> (r matches Err(DiskErr::InvalidSectorIndex { found, max }) && found == (if start + size
                <= usize::MAX {
                start + size
            } else {
                usize::MAX as int
            }) && max
                == (old(self).spec_disk().infos().disk_size as int) / (old(self).spec_sector_size() as int)),
            i < 4 && start != 0 && !table_overlaps(
                old(self).spec_raw().spec_partitions(),
                start as int,
                start + size,
            ) && partition_fits(
                start + size,
                old(self).spec_sector_size() as int,
                old(self).spec_disk().infos().disk_size as int,
            ) ==> r is Ok,
            r is Err ==> final(self).spec_raw().spec_partitions() == old(self).spec_raw().spec_partitions(),
            r is Ok ==> final(self).spec_raw().spec_partitions() == old(self).spec_raw().spec_partitions().update(
                i as int,
                MbrEntry {
                    status: 0x80,
                    chs_first: [0u8, 0u8, 0u8],
                    partition_type,
                    chs_last: [0u8, 0u8, 0u8],
                    lba_first: start as u32,
                    sectors: size as u32,
                },
            ),
    {
        if i >= 4 {
            return Err(DiskErr::InvalidPartitionIndex);
        }
        if start == 0 {
            return Err(DiskErr::SpaceAlreadyInUse);
        }
        let mut k: usize = 0;
        while k < 4
            invariant
                k <= 4,
                i < 4,
                start != 0,
                self.wf(),
                *self == *old(self),
                self.raw.partitions@.len() == 4,
                forall|j: int| 0 <= j < k ==> !#[trigger] entry_overlaps(self.raw.partitions@[j], start as int, start + size),
            decreases 4 - k,
        {
            let p = self.raw.partitions[k];
            let lba = p.lba_first as u64;
            let below_end = (lba as usize) < start || ((lba as usize) - start) < size;
            if below_end && (start as u64) < lba + p.sectors as u64 {
                proof {
                    assert(entry_overlaps(self.raw.partitions@[k as int], start as int, start + size));
                }
                return Err(DiskErr::SpaceAlreadyInUse);
            }
            k += 1;
        }
        let disk_size = self.disk.size();
        let max = disk_size / self.sector_size;
        let end = match start.checked_add(size) {
            Some(e) => e,
            None => {
                proof {
                    lemma_div_bound(start + size, disk_size as int, self.sector_size as int);
                }
                return Err(DiskErr::InvalidSectorIndex { found: usize::MAX, max });
            },
        };
        proof {
            lemma_div_bound(end as int, disk_size as int, self.sector_size as int);
        }
        if end > max || end > 0xFFFF_FFFF {
            return Err(DiskErr::InvalidSectorIndex { found: end, max });
        }
        let entry = MbrEntry {
            status: 0x80,
            chs_first: [0, 0, 0],
            partition_type,
            chs_last: [0, 0, 0],
            lba_first: start as u32,
            sectors: size as u32,
        };
        self.raw.partitions[i] = entry;
        Ok(())
    }

    /// Lends out the byte range of slot `i`, `[lba_first * sector_size, (lba_first + sectors) *
    /// sector_size)`, in `permissions`. Fails with `InvalidPartitionIndex` for a slot outside
    /// `0..4`; otherwise as the tracker's `subdisk` does.
    pub fn get_partition(&mut self, i: usize, permissions: Permissions) -> (r: Result<SubDisk, DiskErr>)
        requires
            old(self).wf(),
        ensures
            final(self).wf(),
            final(self).spec_raw() == old(self).spec_raw(),
            final(self).spec_sector_size() == old(self).spec_sector_size(),
            final(self).spec_disk().inner() == old(self).spec_disk().inner(),
            final(self).spec_disk().infos() == old(self).spec_disk().infos(),
            final(self).spec_disk().contents() == old(self).spec_disk().contents(),
            i >= 4 ==> r == Err::<SubDisk, DiskErr>(DiskErr::InvalidPartitionIndex),
            r is Err ==> final(self).spec_disk().readers() == old(self).spec_disk().readers()
                && final(self).spec_disk().writers() == old(self).spec_disk().writers(),
            i < 4 ==> {
                let e = old(self).spec_raw().spec_partitions()[i as int];
                let ss = old(self).spec_sector_size() as int;
                let s = e.lba_first * ss;
                let t = (e.lba_first + e.sectors) * ss;
                let rs = old(self).spec_disk().readers();
                let ws = old(self).spec_disk().writers();
                &&& t > usize::MAX ==> r == Err::<SubDisk, DiskErr>(DiskErr::InvalidDiskSize)
                &&& t <= usize::MAX && conflicts(rs, ws, s, t, permissions) ==> r == Err::<SubDisk, DiskErr>(DiskErr::Busy)
                &&& t <= usize::MAX && !conflicts(rs, ws, s, t, permissions) && t > old(self).spec_disk().infos().disk_size
                    ==> r == Err::<SubDisk, DiskErr>(DiskErr::InvalidDiskSize)
                &&& t <= usize::MAX && !conflicts(rs, ws, s, t, permissions) && t <= old(self).spec_disk().infos().disk_size
                    ==> r is Ok
                &&& r matches Ok(sub) ==> {
                    &&& sub.spec_start() == s && sub.spec_end() == t
                    &&& sub.spec_permissions() == permissions
                    &&& final(self).spec_disk().writers() == if permissions.write {
                        ws.push((s as usize, t as usize))
                    } else {
                        ws
                    }
                    &&& final(self).spec_disk().readers() == if !permissions.write && permissions.read {
                        rs.push((s as usize, t as usize))
                    } else {
                        rs
                    }
                }
            },
    {
        if i >= 4 {
            return Err(DiskErr::InvalidPartitionIndex);
        }
        let e = self.raw.partitions[i];
        let first = e.lba_first as usize;
        let last = match first.checked_add(e.sectors as usize) {
            Some(v) => v,
            None => {
                proof {
                    assert(last_bytes_exceed(first + e.sectors, self.sector_size as int)) by (nonlinear_arith)
                        requires first + e.sectors > usize::MAX, self.sector_size >= 512;
                }
                return Err(DiskErr::InvalidDiskSize);
            },
        };
        let s = match first.checked_mul(self.sector_size) {
            Some(v) => v,
            None => {
                proof {
                    assert(first * self.sector_size <= last * self.sector_size) by (nonlinear_arith)
                        requires first <= last, self.sector_size >= 0;
                }
                return Err(DiskErr::InvalidDiskSize);
            },
        };
        let t = match last.checked_mul(self.sector_size) {
            Some(v) => v,
            None => {
                return Err(DiskErr::InvalidDiskSize);
            },
        };
        proof {
            assert(s == e.lba_first * self.sector_size);
            assert(t == (e.lba_first + e.sectors) * self.sector_size);
            assert(first * self.sector_size <= last * self.sector_size) by (nonlinear_arith)
                requires first <= last, self.sector_size >= 0;
        }
        self.disk.subdisk(s, t, permissions)
    }

    /// Takes back what a partition's sub-device borrowed.
    pub fn release_partition(&mut self, sub: SubDisk)
        requires
            old(self).wf(),
        ensures
            final(self).wf(),
            final(self).spec_raw() == old(self).spec_raw(),
            final(self).spec_sector_size() == old(self).spec_sector_size(),
            final(self).spec_disk().infos() == old(self).spec_disk().infos(),
            final(self).spec_disk().contents() == old(self).spec_disk().contents(),
            sub.spec_permissions().write ==> final(self).spec_disk().writers() == remove_one(
                old(self).spec_disk().writers(),
                (sub.spec_start(), sub.spec_end()),
            ) && final(self).spec_disk().readers() == old(self).spec_disk().readers(),
            !sub.spec_permissions().write && sub.spec_permissions().read ==> final(self).spec_disk().readers()
                == remove_one(old(self).spec_disk().readers(), (sub.spec_start(), sub.spec_end()))
                && final(self).spec_disk().writers() == old(self).spec_disk().writers(),
    {
        self.disk.release(sub);
    }

    /// Reads sector `sector` of a partition's sub-device.
    pub fn read_partition_sector(&self, sub: &SubDisk, sector: usize, buf: &mut Vec<u8>) -> (r: Result<(), DiskErr>)
        requires
            self.wf(),
        ensures
            final(buf)@.len() == old(buf)@.len(),
            sub_outcome(
                self.spec_disk().readers(),
                self.spec_disk().writers(),
                sub,
                sector as int,
                old(buf)@.len() as int,
                false,
                r,
            ),
            r is Ok ==> final(buf)@ == self.spec_disk().contents().subrange(
                sub.spec_start() + sector * old(buf)@.len(),
                sub.spec_start() + sector * old(buf)@.len() + old(buf)@.len(),
            ),
            sub_io_owed(&self.spec_disk(), sub, sector as int, old(buf)@.len() as int, false) ==> r is Ok,
            !(recorded_in(
                self.spec_disk().readers(),
                self.spec_disk().writers(),
                (sub.spec_start(), sub.spec_end()),
                sub.spec_permissions(),
            ) && sub_request_ok(sub, sector as int, old(buf)@.len() as int, false)) ==> final(buf)@
                == old(buf)@,
    {
        self.disk.read_sub_sector(sub, sector, buf)
    }

    /// Writes sector `sector` of a partition's sub-device.
    pub fn write_partition_sector(&mut self, sub: &SubDisk, sector: usize, buf: &[u8]) -> (r: Result<(), DiskErr>)
        requires
            old(self).wf(),
        ensures
            final(self).wf(),
            final(self).spec_raw() == old(self).spec_raw(),
            final(self).spec_sector_size() == old(self).spec_sector_size(),
            final(self).spec_disk().infos() == old(self).spec_disk().infos(),
            final(self).spec_disk().readers() == old(self).spec_disk().readers(),
            final(self).spec_disk().writers() == old(self).spec_disk().writers(),
            sub_outcome(
                old(self).spec_disk().readers(),
                old(self).spec_disk().writers(),
                sub,
                sector as int,
                buf@.len() as int,
                true,
                r,
            ),
            r is Ok ==> final(self).spec_disk().contents() == splice(
                old(self).spec_disk().contents(),
                sub.spec_start() + sector * buf@.len(),
                buf@,
            ),
            sub_io_owed(&old(self).spec_disk(), sub, sector as int, buf@.len() as int, true) ==> r is Ok,
            !(recorded_in(
                old(self).spec_disk().readers(),
                old(self).spec_disk().writers(),
                (sub.spec_start(), sub.spec_end()),
                sub.spec_permissions(),
            ) && sub_request_ok(sub, sector as int, buf@.len() as int, true)) ==> final(self).spec_disk().contents()
                == old(self).spec_disk().contents(),
    {
        self.disk.write_sub_sector(sub, sector, buf)
    }

    /// Gives the tracker back, with the sub-devices it lent out.
    pub fn into_tracker(self) -> (r: DiskWrapper<D>)
        ensures
            r == self.spec_disk(),
    {
        self.disk
    }

    /// Gives the device back, with whatever sub-devices are left unreachable.
    pub fn into_inner(self) -> (r: D)
        requires
            self.wf(),
        ensures
            r == self.spec_disk().inner(),
            r.wf(),
            r.contents() == self.spec_disk().contents(),
            r.infos() == self.spec_disk().infos(),
            r.reliable() == self.spec_disk().reliable(),
    {
        self.disk.into_inner()
    }

    /// Replaces the boot code.
    pub fn set_boot_code(&mut self, boot_code: [u8; 446])
        requires
            old(self).wf(),
        ensures
            final(self).wf(),
            final(self).spec_raw().spec_bootstrap() == boot_code@,
            final(self).spec_raw().spec_partitions() == old(self).spec_raw().spec_partitions(),
            final(self).spec_raw().spec_signature() == old(self).spec_raw().spec_signature(),
            final(self).spec_disk() == old(self).spec_disk(),
            final(self).spec_sector_size() == old(self).spec_sector_size(),
    {
        let mut v: Vec<u8> = Vec::new();
        let mut i: usize = 0;
        while i < 446
            invariant
                i <= 446,
                v@ == boot_code@.subrange(0, i as int),
            decreases 446 - i,
        {
            v.push(boot_code[i]);
            i += 1;
        }
        assert(v@ =~= boot_code@);
        self.raw.bootstrap = v;
    }
}

/// A partition ending at sector `end` lies within a device of `d` bytes with `ss`-byte
/// sectors, and its end can be said in 32 bits.
pub open spec fn partition_fits(end: int, ss: int, d: int) -> bool {
    end * ss <= d && end <= 0xFFFF_FFFF
}

/// The end of a range of `last` sectors of `ss` bytes lies beyond what `usize` holds.
pub open spec fn last_bytes_exceed(last: int, ss: int) -> bool {
    last * ss > usize::MAX
}

proof fn lemma_div_bound(e: int, d: int, ss: int)
    requires
        ss > 0,
        d >= 0,
        e >= 0,
    ensures
        e <= d / ss <==> e * ss <= d,
{
    vstd::arithmetic::div_mod::lemma_fundamental_div_mod(d, ss);
    let q = d / ss;
    let m = d % ss;
    assert(0 <= m < ss) by {
        vstd::arithmetic::div_mod::lemma_mod_pos_bound(d, ss);
    }
    if e <= q {
        assert(e * ss <= q * ss) by (nonlinear_arith)
            requires e <= q, ss > 0;
        assert(q * ss == ss * q) by (nonlinear_arith);
    } else {
        assert(e * ss >= (q + 1) * ss) by (nonlinear_arith)
            requires e >= q + 1, ss > 0;
        assert((q + 1) * ss == ss * q + ss) by (nonlinear_arith);
    }
}

/// Writing the table is owed success: the device is reliable, refuses nothing and can be
/// written, and no borrow covers any of the table's first sector.
pub open spec fn write_owed<D: Disk>(w: DiskWrapper<D>, ss: int) -> bool {
    &&& w.inner().reliable()
    &&& refuses_nothing(&w.inner())
    &&& w.infos().permissions.write
    &&& !any_overlap(w.writers(), 0, ss)
    &&& !any_overlap(w.readers(), 0, ss)
}

/// The sector size a table takes: the given one when it is at least 512 bytes and supported,
/// else, when none is given, the smallest supported one of at least 512 bytes.
pub open spec fn chosen_sector_size(cap: SectorSizeView, d: int, given: Option<usize>, s: int) -> bool {
    match given {
        Some(v) => s == v && v >= 512 && cap.supports(v as int, d),
        None => is_smallest_ge(cap, 512, d, s),
    }
}

/// No sector size can be chosen.
pub open spec fn no_sector_size(cap: SectorSizeView, d: int, given: Option<usize>) -> bool {
    match given {
        Some(v) => !(v >= 512 && cap.supports(v as int, d)),
        None => none_ge(cap, 512, d),
    }
}

fn choose_sector_size(infos: &DiskInfos, given: Option<usize>) -> (r: Result<usize, DiskErr>)
    ensures
        r matches Ok(s) ==> chosen_sector_size(infos.sector_size@, infos.disk_size as int, given, s as int),
        no_sector_size(infos.sector_size@, infos.disk_size as int, given) <==> r == Err::<usize, DiskErr>(
            DiskErr::UnsupportedDiskSectorSize,
        ),
        r is Err ==> r == Err::<usize, DiskErr>(DiskErr::UnsupportedDiskSectorSize),
{
    match given {
        Some(v) => {
            if v >= 512 && infos.sector_size.is_supported(v, infos.disk_size) {
                Ok(v)
            } else {
                Err(DiskErr::UnsupportedDiskSectorSize)
            }
        },
        None => mbr_sector_size(infos),
    }
}

} // verus!
