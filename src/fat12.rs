//! The FAT12 engine: format, mount, FAT entries, the root directory, free clusters, and cluster
//! chains resolved to fragmented sub-devices.

use vstd::prelude::*;
use crate::disk::{
    is_smallest_ge, lemma_smallest_unique, none_ge, refuses_nothing, sector_bytes, splice, Disk, DiskErr, DiskInfos,
    Permissions,
};
use crate::fat::{
    bpb_bytes_per_sector, bpb_clusters_count, bpb_fat_size, bpb_first_data_sector, bpb_is_fat12,
    bpb_number_of_fats, bpb_reserved_sectors, bpb_root_dir_sectors, bpb_root_entries,
    bpb_sectors_per_cluster, bpb_total_sectors, bpb_valid, dir_entry_bytes, dir_entry_decoded,
    entry_in_fat, fat_room,
    BiosParameterBlock, DirEntry,
};
use crate::le::{le16_bytes, le32_bytes, push_le16, push_le32};
use crate::mbr::zeros;
use crate::wrappers::{
    any_overlap, coalesce, frag_checks_pass, frag_contents, frag_io_owed, frag_outcome, holds_byte, part_offset, parts_disjoint, ranges_within,
    remove_each, some_part_conflicts,
    total_len, DiskWrapper,
    FragmentedSubDisk,
};

verus! {

/// Checks `bpb_is_fat12`.
pub fn is_fat12(bpb: &BiosParameterBlock) -> (r: bool)
    requires
        bpb@.len() == 512,
    ensures
        r == bpb_is_fat12(bpb@),
{
    if !bpb.is_valid() {
        return false;
    }
    let bps = bpb.bytes_per_sector() as u64;
    let spc = bpb.sectors_per_cluster() as u64;
    let reserved = bpb.reserved_sectors_count() as u64;
    let nfats = bpb.number_of_fats() as u64;
    let fat_size = bpb.fat_size() as u64;
    let root = bpb.root_entries_count() as u64;
    let total = bpb.total_sectors() as u64;
    assert(nfats * fat_size <= 255 * 65535) by (nonlinear_arith)
        requires nfats <= 255, fat_size <= 65535;
    let rds = (root * 32 + bps - 1) / bps;
    let fds = reserved + nfats * fat_size + rds;
    if fds > total {
        return false;
    }
    let cc = (total - fds) / spc;
    assert(fat_size * bps <= 65535 * 32768) by (nonlinear_arith)
        requires bps <= 32768, fat_size <= 65535;
    cc < 4085
}

/// The FAT12 boot sector of a volume.
pub struct Fat12Raw {
    bpb: BiosParameterBlock,
}

impl Fat12Raw {
    pub closed spec fn spec_bpb(&self) -> Seq<u8> {
        self.bpb@
    }

    /// The boot sector.
    pub fn bpb(&self) -> (r: &BiosParameterBlock)
        ensures
            r@ == self.spec_bpb(),
    {
        &self.bpb
    }

    /// Reads sector 0 at the smallest supported sector size of at least 512 bytes: `None` when
    /// its first 512 bytes are not the boot sector of a FAT12 volume.
    pub fn read_from_disk<T: Disk>(disk: &T) -> (r: Result<Option<Self>, DiskErr>)
        requires
            disk.wf(),
        ensures
            none_ge(disk.infos().sector_size, 512, disk.infos().disk_size as int) ==> r is Err,
            disk.reliable() && disk.infos().permissions.read && !none_ge(
                disk.infos().sector_size,
                512,
                disk.infos().disk_size as int,
            ) && (forall|s: int|
                #[trigger] is_smallest_ge(disk.infos().sector_size, 512, disk.infos().disk_size as int, s)
                    ==> !disk.refuses(0, s, false)) ==> r is Ok,
            r matches Ok(Some(raw)) ==> raw.spec_bpb() == disk.contents().subrange(0, 512)
                && bpb_is_fat12(raw.spec_bpb()),
            r matches Ok(None) ==> !bpb_is_fat12(disk.contents().subrange(0, 512)),
    {
        let infos = disk.disk_infos()?;
        let ss = match infos.sector_size.minimal_ge(512, infos.disk_size) {
            Some(s) => s,
            None => {
                return Err(DiskErr::UnsupportedDiskSectorSize);
            },
        };
        proof {
            lemma_smallest_unique(disk.infos().sector_size, disk.infos().disk_size as int, ss as int);
        }
        let mut sector = vec![0u8; ss];
        disk.read_sector(0, &mut sector)?;
        proof {
            disk.lemma_contents_len();
        }
        let bpb = match BiosParameterBlock::from_bytes(sector.as_slice()) {
            Some(b) => b,
            None => {
                return Err(DiskErr::IOErr);
            },
        };
        proof {
            assert(sector@.subrange(0, 512) =~= disk.contents().subrange(0, 512));
        }
        if is_fat12(&bpb) {
            Ok(Some(Fat12Raw { bpb }))
        } else {
            Ok(None)
        }
    }

    /// Writes the boot sector at the start of sector 0, padded with zeroes to the smallest
    /// supported sector size of at least 512 bytes.
    pub fn write_to_disk<T: Disk>(&self, disk: &mut T) -> (r: Result<(), DiskErr>)
        requires
            old(disk).wf(),
            self.spec_bpb().len() == 512,
        ensures
            final(disk).wf(),
            final(disk).infos() == old(disk).infos(),
            none_ge(old(disk).infos().sector_size, 512, old(disk).infos().disk_size as int) ==> r is Err
                && *final(disk) == *old(disk),
            none_ge(old(disk).infos().sector_size, 512, old(disk).infos().disk_size as int)
                && old(disk).reliable() ==> r == Err::<(), DiskErr>(DiskErr::UnsupportedDiskSectorSize),
            old(disk).reliable() && old(disk).infos().permissions.write && !none_ge(
                old(disk).infos().sector_size,
                512,
                old(disk).infos().disk_size as int,
            ) && (forall|s: int|
                #[trigger] is_smallest_ge(old(disk).infos().sector_size, 512, old(disk).infos().disk_size as int, s)
                    ==> !old(disk).refuses(0, s, true)) ==> r is Ok,
            final(disk).reliable() == old(disk).reliable(),
            forall|s: int, l: int, w: bool| #[trigger] final(disk).refuses(s, l, w) == old(disk).refuses(
                s,
                l,
                w,
            ),
            r is Ok ==> exists|s: int|
                is_smallest_ge(old(disk).infos().sector_size, 512, old(disk).infos().disk_size as int, s)
                    && final(disk).contents() == splice(
                    old(disk).contents(),
                    0,
                    self.spec_bpb() + zeros(s - 512),
                ),
    {
        let infos = disk.disk_infos()?;
        let ss = match infos.sector_size.minimal_ge(512, infos.disk_size) {
            Some(s) => s,
            None => {
                return Err(DiskErr::UnsupportedDiskSectorSize);
            },
        };
        proof {
            lemma_smallest_unique(old(disk).infos().sector_size, old(disk).infos().disk_size as int, ss as int);
        }
        let mut sector = self.bpb.to_bytes();
        while sector.len() < ss
            invariant
                512 <= sector@.len() <= ss,
                sector@ == self.spec_bpb() + zeros(sector@.len() - 512),
            decreases ss - sector@.len(),
        {
            sector.push(0);
            assert(sector@ =~= self.spec_bpb() + zeros(sector@.len() - 512));
        }
        let r = disk.write_sector(0, sector.as_slice());
        proof {
            if r is Ok {
                assert(is_smallest_ge(old(disk).infos().sector_size, 512, old(disk).infos().disk_size as int, ss as int));
            }
        }
        r
    }
}

/// The byte offset, on the device, of FAT entry `n` in FAT copy `k`.
pub open spec fn fat_offset(b: Seq<u8>, k: int, n: int) -> int {
    (bpb_reserved_sectors(b) + k * bpb_fat_size(b)) * bpb_bytes_per_sector(b) + n + n / 2
}

/// The 12-bit entry `n` packed at byte `pos` of `c`: the low 12 bits of the little-endian
/// 16-bit word for an even `n`, its high 12 bits for an odd one.
pub open spec fn fat_entry_at(c: Seq<u8>, pos: int, n: int) -> int {
    if n % 2 == 0 {
        c[pos] as int + 256 * (c[pos + 1] as int % 16)
    } else {
        c[pos] as int / 16 + 16 * (c[pos + 1] as int)
    }
}

/// Entry `n` of the active FAT (copy 0).
pub open spec fn fat_entry(b: Seq<u8>, c: Seq<u8>, n: int) -> int {
    fat_entry_at(c, fat_offset(b, 0, n), n)
}

/// The two bytes at `pos` once entry `n` there is set to `v`, keeping the neighbours' bits.
pub open spec fn packed_bytes(lo: u8, hi: u8, n: int, v: int) -> (u8, u8) {
    let w = v % 4096;
    if n % 2 == 0 {
        ((w % 256) as u8, ((hi as int / 16) * 16 + w / 256) as u8)
    } else {
        ((lo as int % 16 + 16 * (w % 16)) as u8, (w / 16) as u8)
    }
}

/// `c` with entry `n` packed at `pos` set to `v`.
pub open spec fn fat_set_at(c: Seq<u8>, pos: int, n: int, v: int) -> Seq<u8> {
    let p = packed_bytes(c[pos], c[pos + 1], n, v);
    c.update(pos, p.0).update(pos + 1, p.1)
}

/// `c` with entry `n` set to `v` in FAT copies `0..k`.
pub open spec fn fat_set(b: Seq<u8>, c: Seq<u8>, n: int, v: int, k: nat) -> Seq<u8>
    decreases k,
{
    if k == 0 {
        c
    } else {
        let prev = fat_set(b, c, n, v, (k - 1) as nat);
        fat_set_at(prev, fat_offset(b, k - 1, n), n, v)
    }
}

/// Every FAT copy lies within `c`.
pub open spec fn fats_within(b: Seq<u8>, c: Seq<u8>) -> bool {
    (bpb_reserved_sectors(b) + bpb_number_of_fats(b) * bpb_fat_size(b)) * bpb_bytes_per_sector(b)
        <= c.len()
}

/// The FAT copies end where the root directory begins, before the data region.
proof fn lemma_fats_before_data(b: Seq<u8>)
    requires
        bpb_is_fat12(b),
    ensures
        (bpb_reserved_sectors(b) + bpb_number_of_fats(b) * bpb_fat_size(b)) * bpb_bytes_per_sector(b)
            <= bpb_first_data_sector(b) * bpb_bytes_per_sector(b),
{
    let bps = bpb_bytes_per_sector(b);
    let x = bpb_root_entries(b) * 32 + bps - 1;
    assert(x / bps >= 0) by (nonlinear_arith)
        requires x >= 0, bps > 0;
    assert((bpb_reserved_sectors(b) + bpb_number_of_fats(b) * bpb_fat_size(b)) * bps
        <= bpb_first_data_sector(b) * bps) by (nonlinear_arith)
        requires
            bpb_reserved_sectors(b) + bpb_number_of_fats(b) * bpb_fat_size(b) <= bpb_first_data_sector(b),
            bps > 0;
}

/// The sectors that entry `n` of FAT copy `k` touches end within that copy.
proof fn lemma_fat_span(b: Seq<u8>, k: int, n: int)
    requires
        bpb_is_fat12(b),
        0 <= k < bpb_number_of_fats(b),
        0 <= n < bpb_clusters_count(b),
        entry_in_fat(b, n),
    ensures
        ({
            let bps = bpb_bytes_per_sector(b);
            let o = n + n / 2;
            let sector = bpb_reserved_sectors(b) + k * bpb_fat_size(b) + o / bps;
            span_end(sector, o % bps, 2, bps) <= (bpb_reserved_sectors(b) + (k + 1) * bpb_fat_size(b)) * bps
        }),
        (bpb_reserved_sectors(b) + bpb_number_of_fats(b) * bpb_fat_size(b)) * bpb_bytes_per_sector(b)
            <= bpb_first_data_sector(b) * bpb_bytes_per_sector(b),
{
    let bps = bpb_bytes_per_sector(b);
    let fs = bpb_fat_size(b);
    let rs = bpb_reserved_sectors(b);
    let o = n + n / 2;
    lemma_copy_bounds(b, k, n);
    lemma_fat_regions(b);
    assert((rs + (k + 1) * fs) * bps == (rs + k * fs) * bps + fs * bps) by (nonlinear_arith);
    assert(o + 1 < fs * bps);
    let q = o / bps;
    let m = o % bps;
    vstd::arithmetic::div_mod::lemma_fundamental_div_mod(o, bps);
    assert(0 <= m < bps) by {
        vstd::arithmetic::div_mod::lemma_mod_pos_bound(o, bps);
    }
    if m + 2 <= bps {
        assert(q + 1 <= fs) by (nonlinear_arith)
            requires o == bps * q + m, 0 <= m, o + 1 < fs * bps, bps > 0;
        assert((rs + k * fs + q + 1) * bps <= (rs + (k + 1) * fs) * bps) by (nonlinear_arith)
            requires q + 1 <= fs, bps > 0;
    } else {
        assert(q + 2 <= fs) by (nonlinear_arith)
            requires o == bps * q + m, m == bps - 1, o + 1 < fs * bps, bps > 0;
        assert((rs + k * fs + q + 2) * bps <= (rs + (k + 1) * fs) * bps) by (nonlinear_arith)
            requires q + 2 <= fs, bps > 0;
    }
    let x = bpb_root_entries(b) * 32 + bps - 1;
    assert(x / bps >= 0) by (nonlinear_arith)
        requires x >= 0, bps > 0;
    assert((rs + bpb_number_of_fats(b) * fs) * bps <= bpb_first_data_sector(b) * bps) by (nonlinear_arith)
        requires
            rs + bpb_number_of_fats(b) * fs <= bpb_first_data_sector(b),
            bps > 0;
}

/// The byte offset, on the device, of root directory entry `i`.
pub open spec fn root_entry_offset(b: Seq<u8>, i: int) -> int {
    (bpb_reserved_sectors(b) + bpb_number_of_fats(b) * bpb_fat_size(b)) * bpb_bytes_per_sector(b)
        + 32 * i
}

/// The free (zero) entries of the active FAT among `2..hi`, in order.
pub open spec fn free_entries(b: Seq<u8>, c: Seq<u8>, hi: int) -> Seq<usize>
    decreases hi,
{
    if hi <= 2 {
        Seq::empty()
    } else if fat_entry(b, c, hi - 1) == 0 {
        free_entries(b, c, hi - 1).push((hi - 1) as usize)
    } else {
        free_entries(b, c, hi - 1)
    }
}

proof fn lemma_free_entries_step(b: Seq<u8>, c: Seq<u8>, n: int)
    requires
        2 <= n <= usize::MAX,
    ensures
        fat_entry(b, c, n) == 0 ==> free_entries(b, c, n + 1) == free_entries(b, c, n).push(n as usize),
        fat_entry(b, c, n) != 0 ==> free_entries(b, c, n + 1) == free_entries(b, c, n),
{
    assert(n + 1 - 1 == n);
}

/// The free entries among `2..lo` begin those among `2..hi`.
proof fn lemma_free_entries_prefix(b: Seq<u8>, c: Seq<u8>, lo: int, hi: int)
    requires
        lo <= hi,
    ensures
        free_entries(b, c, lo).len() <= free_entries(b, c, hi).len(),
        free_entries(b, c, hi).take(free_entries(b, c, lo).len() as int) == free_entries(b, c, lo),
    decreases hi - lo,
{
    if lo < hi {
        lemma_free_entries_prefix(b, c, lo, hi - 1);
        let a = free_entries(b, c, lo);
        let m = free_entries(b, c, hi - 1);
        if hi > 2 {
            assert(free_entries(b, c, hi).take(a.len() as int) =~= m.take(a.len() as int));
        }
    } else {
        assert(free_entries(b, c, hi).take(free_entries(b, c, hi).len() as int) =~= free_entries(b, c, hi));
    }
}

/// Root entry `i` lies within one sector.
proof fn lemma_root_place(bps: int, i: int, root: int)
    requires
        crate::fat::valid_bytes_per_sector(bps),
        0 <= i < root,
    ensures
        (32 * i) % bps + 32 <= bps,
        (32 * i) / bps < (root * 32 + bps - 1) / bps,
{
    let t = bps / 32;
    assert(bps == 32 * t);
    vstd::arithmetic::div_mod::lemma_fundamental_div_mod(i, t);
    let q = i / t;
    let m = i % t;
    assert(0 <= m < t) by {
        vstd::arithmetic::div_mod::lemma_mod_pos_bound(i, t);
    }
    assert(32 * i == q * bps + 32 * m) by (nonlinear_arith)
        requires i == t * q + m, bps == 32 * t;
    vstd::arithmetic::div_mod::lemma_fundamental_div_mod_converse(32 * i, bps, q, 32 * m);
    let x = root * 32 + bps - 1;
    let big = x / bps;
    vstd::arithmetic::div_mod::lemma_fundamental_div_mod(x, bps);
    assert(0 <= x % bps < bps) by {
        vstd::arithmetic::div_mod::lemma_mod_pos_bound(x, bps);
    }
    assert(big * bps >= root * 32) by (nonlinear_arith)
        requires x == bps * big + x % bps, x % bps < bps, x == root * 32 + bps - 1;
    assert(q * bps <= 32 * i);
    assert(q < big) by (nonlinear_arith)
        requires q * bps <= 32 * i, 32 * i < root * 32, root * 32 <= big * bps, bps > 0;
}

/// `ch` is the cluster chain of a file: data clusters, each entry naming the next, the last
/// one an end-of-chain mark (0xFF8 to 0xFFF).
#[verifier::opaque]
pub open spec fn is_chain(b: Seq<u8>, c: Seq<u8>, ch: Seq<usize>) -> bool {
    &&& ch.len() >= 1
    &&& forall|i: int| 0 <= i < ch.len() ==> 2 <= #[trigger] ch[i] < bpb_clusters_count(b)
    &&& forall|i: int|
        0 <= i < ch.len() - 1 ==> fat_entry(b, c, #[trigger] ch[i] as int) == ch[i + 1]
    &&& fat_entry(b, c, ch.last() as int) >= 0xFF8
}

/// The chain from a cluster is unique: each entry names the next, and only the last holds an
/// end-of-chain mark.
pub proof fn lemma_chain_unique(b: Seq<u8>, c: Seq<u8>, ch1: Seq<usize>, ch2: Seq<usize>)
    requires
        bpb_is_fat12(b),
        is_chain(b, c, ch1),
        is_chain(b, c, ch2),
        ch1[0] == ch2[0],
    ensures
        ch1 == ch2,
{
    reveal(is_chain);
    lemma_fat_regions(b);
    let n = if ch1.len() < ch2.len() { ch1.len() } else { ch2.len() };
    assert forall|i: int| 0 <= i < n implies ch1[i] == ch2[i] by {
        lemma_chain_prefix(b, c, ch1, ch2, i);
    }
    if ch1.len() < ch2.len() {
        let j = ch1.len() - 1;
        assert(ch1[j] == ch2[j]);
        assert(fat_entry(b, c, ch2[j] as int) == ch2[j + 1]);
        assert(ch2[j + 1] < bpb_clusters_count(b));
    } else if ch2.len() < ch1.len() {
        let j = ch2.len() - 1;
        assert(ch1[j] == ch2[j]);
        assert(fat_entry(b, c, ch1[j] as int) == ch1[j + 1]);
        assert(ch1[j + 1] < bpb_clusters_count(b));
    }
    assert(ch1 =~= ch2);
}

proof fn lemma_chain_prefix(b: Seq<u8>, c: Seq<u8>, ch1: Seq<usize>, ch2: Seq<usize>, i: int)
    requires
        is_chain(b, c, ch1),
        is_chain(b, c, ch2),
        ch1[0] == ch2[0],
        0 <= i < ch1.len(),
        i < ch2.len(),
    ensures
        ch1[i] == ch2[i],
    decreases i,
{
    reveal(is_chain);
    if i > 0 {
        lemma_chain_prefix(b, c, ch1, ch2, i - 1);
        assert(fat_entry(b, c, ch1[i - 1] as int) == ch1[i]);
        assert(fat_entry(b, c, ch2[i - 1] as int) == ch2[i]);
    }
}

/// `ch` leads from its first cluster through valid links to a cluster whose entry names
/// neither a next data cluster nor the end: a free (0), reserved (1) or bad (0xFF7) cluster,
/// or one beyond the data clusters.
pub open spec fn is_corrupt_chain(b: Seq<u8>, c: Seq<u8>, ch: Seq<usize>) -> bool {
    &&& ch.len() >= 1
    &&& forall|i: int| 0 <= i < ch.len() ==> 2 <= #[trigger] ch[i] < bpb_clusters_count(b)
    &&& forall|i: int|
        0 <= i < ch.len() - 1 ==> fat_entry(b, c, #[trigger] ch[i] as int) == ch[i + 1]
    &&& fat_entry(b, c, ch.last() as int) < 0xFF8
    &&& (fat_entry(b, c, ch.last() as int) < 2 || fat_entry(b, c, ch.last() as int) >= bpb_clusters_count(b))
}

/// The first byte of cluster `cl` on the device.
pub open spec fn cluster_start(b: Seq<u8>, cl: int) -> int {
    (bpb_first_data_sector(b) + (cl - 2) * bpb_sectors_per_cluster(b)) * bpb_bytes_per_sector(b)
}

/// The byte range of cluster `cl`.
pub open spec fn cluster_range(b: Seq<u8>, cl: int) -> (usize, usize) {
    (
        cluster_start(b, cl) as usize,
        (cluster_start(b, cl) + bpb_sectors_per_cluster(b) * bpb_bytes_per_sector(b)) as usize,
    )
}

/// The byte ranges of the clusters of `ch`, in order.
pub open spec fn cluster_ranges(b: Seq<u8>, ch: Seq<usize>) -> Seq<(usize, usize)> {
    Seq::new(ch.len(), |i: int| cluster_range(b, ch[i] as int))
}

proof fn lemma_cluster_bounds(b: Seq<u8>, cl: int)
    requires
        bpb_is_fat12(b),
        2 <= cl < bpb_clusters_count(b),
    ensures
        bpb_first_data_sector(b) + (cl - 2) * bpb_sectors_per_cluster(b) + bpb_sectors_per_cluster(b)
            <= bpb_total_sectors(b),
        0 <= bpb_first_data_sector(b) + (cl - 2) * bpb_sectors_per_cluster(b),
{
    lemma_fat_regions(b);
    let spc = bpb_sectors_per_cluster(b);
    let cc = bpb_clusters_count(b);
    let avail = bpb_total_sectors(b) - bpb_first_data_sector(b);
    assert(cc * spc <= avail) by (nonlinear_arith)
        requires cc == avail / spc, spc > 0, avail >= 0;
    assert((cl - 2) * spc + spc <= cc * spc) by (nonlinear_arith)
        requires cl - 1 <= cc, spc > 0, cl >= 2;
    assert((cl - 2) * spc >= 0) by (nonlinear_arith)
        requires cl >= 2, spc > 0;
    assert(bpb_root_dir_sectors(b) >= 0) by (nonlinear_arith)
        requires bpb_root_entries(b) >= 0, bpb_bytes_per_sector(b) >= 512;
}

/// The smallest power of two that is at least `x`, searched from `p`.
pub open spec fn pow2_ceil(x: int, p: int) -> int
    decreases (if p >= 1 && x > p { x - p } else { 0 }),
{
    if p < 1 {
        1
    } else if p >= x {
        p
    } else {
        pow2_ceil(x, 2 * p)
    }
}

/// The bytes per sector a format takes: the given value, else the smallest of 512, 1024, 2048
/// and 4096 that the device supports, else 0.
pub open spec fn format_bps(cap: crate::disk::SectorSizeView, d: int, given: Option<usize>) -> int {
    match given {
        Some(v) => v as int,
        None => if cap.supports(512, d) {
            512
        } else if cap.supports(1024, d) {
            1024
        } else if cap.supports(2048, d) {
            2048
        } else if cap.supports(4096, d) {
            4096
        } else {
            0
        },
    }
}

/// The sectors per cluster a format takes: the given value, else the power of two that keeps
/// the cluster count of a FAT12 volume.
pub open spec fn format_spc(given: Option<usize>, total: int, rds: int) -> int {
    match given {
        Some(v) => v as int,
        None => pow2_ceil((total - rds - 1 + 4084) / 4085, 1),
    }
}

/// The geometry a format computes, as (bytes per sector, sectors per cluster, total sectors,
/// root directory sectors, FAT size, reserved sectors); the sizes are those of the device's
/// capability `cap`, its size `d`, and the arguments.
pub open spec fn format_geometry(
    cap: crate::disk::SectorSizeView,
    d: int,
    root: int,
    nfats: int,
    given_bps: Option<usize>,
    given_spc: Option<usize>,
) -> (int, int, int, int, int, int) {
    let bps = format_bps(cap, d, given_bps);
    let total = d / bps;
    let rds = root * 32 / bps;
    let spc = format_spc(given_spc, total, rds);
    let count = (total - rds - 1) / spc;
    let fat_size = (count + count / 2 + bps - 1) / bps;
    let count2 = (total - rds - nfats * fat_size - 1) / spc;
    let reserved = total - count2 * spc - nfats * fat_size - rds;
    (bps, spc, total, rds, fat_size, reserved)
}

/// The arguments pass the checks made before the geometry is computed.
pub open spec fn format_args_ok(bps: int, root: int, nfats: int, hidden: int) -> bool {
    &&& crate::fat::valid_bytes_per_sector(bps)
    &&& root <= 0xFFFF
    &&& (root * 32) % bps == 0
    &&& 1 <= nfats <= 0xFF
    &&& hidden <= 0xFFFF_FFFF
}

/// The geometry passes the checks: every subtraction stays non-negative, the cluster size is
/// a power of two up to 128, and the fields fit their widths.
pub open spec fn format_geometry_ok(g: (int, int, int, int, int, int), nfats: int) -> bool {
    let (bps, spc, total, rds, fat_size, reserved) = g;
    &&& total >= rds + 1
    &&& crate::fat::valid_sectors_per_cluster(spc)
    &&& total >= rds + nfats * fat_size + 1
    &&& fat_size <= 0xFFFF
    &&& reserved <= 0xFFFF
}

/// The boot sector a format writes.
pub open spec fn format_bytes(g: (int, int, int, int, int, int), root: int, nfats: int, hidden: int) -> Seq<u8> {
    let (bps, spc, total, rds, fat_size, reserved) = g;
    let ts16: int = if total < 0x10000 { total } else { 0 };
    let ts32: int = if total < 0x10000 { 0 } else { total };
    seq![0xEBu8, 0xFEu8, 0x90u8] + zeros(8) + le16_bytes(bps as u16) + seq![spc as u8] + le16_bytes(
        reserved as u16,
    ) + seq![nfats as u8] + le16_bytes(root as u16) + le16_bytes(ts16 as u16) + seq![0xF8u8]
        + le16_bytes(fat_size as u16) + le16_bytes(0) + le16_bytes(0) + le32_bytes(hidden as u32)
        + le32_bytes(ts32 as u32) + seq![0x80u8, 0u8, 0x29u8] + le32_bytes(0) + volume_label()
        + fs_type_fat12() + zeros(448) + le16_bytes(0xAA55)
}

/// The volume label a format writes: "NO NAME" padded with spaces to 11 bytes.
pub open spec fn volume_label() -> Seq<u8> {
    seq![0x4Eu8, 0x4Fu8, 0x20u8, 0x4Eu8, 0x41u8, 0x4Du8, 0x45u8, 0x20u8, 0x20u8, 0x20u8, 0x20u8]
}

/// The file system type a format writes: "FAT12" padded with spaces to 8 bytes.
pub open spec fn fs_type_fat12() -> Seq<u8> {
    seq![0x46u8, 0x41u8, 0x54u8, 0x31u8, 0x32u8, 0x20u8, 0x20u8, 0x20u8]
}

fn default_bps(infos: &DiskInfos) -> (r: usize)
    ensures
        r == format_bps(infos.sector_size@, infos.disk_size as int, None),
{
    if infos.sector_size.is_supported(512, infos.disk_size) {
        512
    } else if infos.sector_size.is_supported(1024, infos.disk_size) {
        1024
    } else if infos.sector_size.is_supported(2048, infos.disk_size) {
        2048
    } else if infos.sector_size.is_supported(4096, infos.disk_size) {
        4096
    } else {
        0
    }
}

fn next_pow2(x: u64) -> (r: u64)
    requires
        x <= 0x1000_0000,
    ensures
        r == pow2_ceil(x as int, 1),
{
    let mut p: u64 = 1;
    while p < x
        invariant
            1 <= p <= 0x2000_0000,
            x <= 0x1000_0000,
            pow2_ceil(x as int, p as int) == pow2_ceil(x as int, 1),
        decreases 0x2000_0000 - p,
    {
        p = p * 2;
    }
    p
}

/// Appends `n` zero bytes.
fn push_zeros(out: &mut Vec<u8>, n: usize)
    ensures
        final(out)@ == old(out)@ + zeros(n as int),
{
    let mut i: usize = 0;
    while i < n
        invariant
            i <= n,
            out@ == old(out)@ + zeros(i as int),
        decreases n - i,
    {
        out.push(0);
        i += 1;
        assert(out@ =~= old(out)@ + zeros(i as int));
    }
}

/// The boot sector of a format with geometry `g`.
fn format_sector(g: (u64, u64, u64, u64, u64, u64), root: u64, nfats: u64, hidden: u64) -> (r: Vec<u8>)
    requires
        g.0 <= 0xFFFF,
        g.1 <= 0xFF,
        g.2 <= 0xFFFF_FFFF,
        g.4 <= 0xFFFF,
        g.5 <= 0xFFFF,
        root <= 0xFFFF,
        nfats <= 0xFF,
        hidden <= 0xFFFF_FFFF,
    ensures
        r@ == format_bytes(
            (g.0 as int, g.1 as int, g.2 as int, g.3 as int, g.4 as int, g.5 as int),
            root as int,
            nfats as int,
            hidden as int,
        ),
        r@.len() == 512,
{
    let (bps, spc, total, rds, fat_size, reserved) = g;
    let mut out: Vec<u8> = Vec::new();
    out.push(0xEB);
    out.push(0xFE);
    out.push(0x90);
    push_zeros(&mut out, 8);
    push_le16(&mut out, bps as u16);
    out.push(spc as u8);
    push_le16(&mut out, reserved as u16);
    out.push(nfats as u8);
    push_le16(&mut out, root as u16);
    let ts16: u64 = if total < 0x10000 {
        total
    } else {
        0
    };
    let ts32: u64 = if total < 0x10000 {
        0
    } else {
        total
    };
    push_le16(&mut out, ts16 as u16);
    out.push(0xF8);
    push_le16(&mut out, fat_size as u16);
    push_le16(&mut out, 0);
    push_le16(&mut out, 0);
    push_le32(&mut out, hidden as u32);
    push_le32(&mut out, ts32 as u32);
    out.push(0x80);
    out.push(0);
    out.push(0x29);
    push_le32(&mut out, 0);
    out.push(0x4E);
    out.push(0x4F);
    out.push(0x20);
    out.push(0x4E);
    out.push(0x41);
    out.push(0x4D);
    out.push(0x45);
    out.push(0x20);
    out.push(0x20);
    out.push(0x20);
    out.push(0x20);
    out.push(0x46);
    out.push(0x41);
    out.push(0x54);
    out.push(0x31);
    out.push(0x32);
    out.push(0x20);
    out.push(0x20);
    out.push(0x20);
    push_zeros(&mut out, 448);
    push_le16(&mut out, 0xAA55);
    assert(out@ =~= format_bytes(
        (g.0 as int, g.1 as int, g.2 as int, g.3 as int, g.4 as int, g.5 as int),
        root as int,
        nfats as int,
        hidden as int,
    ));
    out
}

/// Computes the geometry of a format, or `None` when a check fails.
#[verifier::rlimit(80)]
fn plan_format(
    infos: &DiskInfos,
    root_dir_entries: usize,
    number_of_fats: usize,
    hidden_sectors: usize,
    sector_size: Option<usize>,
    sectors_per_cluster: Option<usize>,
) -> (r: Result<Option<(u64, u64, u64, u64, u64, u64)>, DiskErr>)
    ensures
        ({
            let g = format_geometry(
                infos.sector_size@,
                infos.disk_size as int,
                root_dir_entries as int,
                number_of_fats as int,
                sector_size,
                sectors_per_cluster,
            );
            let ok = format_args_ok(g.0, root_dir_entries as int, number_of_fats as int, hidden_sectors as int);
            &&& r is Err ==> r == Err::<Option<(u64, u64, u64, u64, u64, u64)>, DiskErr>(DiskErr::InvalidDiskSize)
            &&& ok && g.2 > 0xFFFF_FFFF <==> r is Err
            &&& r matches Ok(Some(x)) ==> {
                &&& ok && g.2 <= 0xFFFF_FFFF && format_geometry_ok(g, number_of_fats as int)
                &&& (x.0 as int, x.1 as int, x.2 as int, x.3 as int, x.4 as int, x.5 as int) == g
                &&& x.0 <= 0xFFFF && x.0 >= 512 && x.1 <= 0xFF && x.2 <= 0xFFFF_FFFF && x.4 <= 0xFFFF && x.5 <= 0xFFFF
                &&& x.5 + number_of_fats * x.4 + x.3 <= x.2
                &&& x.5 + number_of_fats * x.4 + x.3 >= 1
                &&& x.2 == (infos.disk_size as int) / (x.0 as int)
                &&& root_dir_entries <= 0xFFFF && number_of_fats <= 0xFF && hidden_sectors <= 0xFFFF_FFFF
            }
            &&& r matches Ok(None) ==> !(ok && g.2 <= 0xFFFF_FFFF && format_geometry_ok(g, number_of_fats as int))
        }),
{
    let ghost cap = infos.sector_size@;
    let ghost d = infos.disk_size as int;
    let ghost g = format_geometry(cap, d, root_dir_entries as int, number_of_fats as int, sector_size, sectors_per_cluster);
    let bps: usize = match sector_size {
        Some(v) => v,
        None => default_bps(infos),
    };
    assert(bps == g.0);
    if !(bps == 512 || bps == 1024 || bps == 2048 || bps == 4096 || bps == 8192 || bps == 16384
        || bps == 32768) || root_dir_entries > 0xFFFF || (root_dir_entries * 32) % bps != 0
        || number_of_fats < 1 || number_of_fats > 0xFF || hidden_sectors > 0xFFFF_FFFF {
        return Ok(None);
    }
    let total = infos.disk_size / bps;
    assert(total == g.2);
    if total > 0xFFFF_FFFF {
        return Err(DiskErr::InvalidDiskSize);
    }
    let total = total as u64;
    let bps64 = bps as u64;
    let root = root_dir_entries as u64;
    let nfats = number_of_fats as u64;
    let rds = root * 32 / bps64;
    assert(rds == g.3);
    if total < rds + 1 {
        return Ok(None);
    }
    let spc: u64 = match sectors_per_cluster {
        Some(v) => {
            if v > 128 {
                return Ok(None);
            }
            v as u64
        },
        None => next_pow2((total - rds - 1 + 4084) / 4085),
    };
    assert(spc == g.1);
    if !(spc == 1 || spc == 2 || spc == 4 || spc == 8 || spc == 16 || spc == 32 || spc == 64
        || spc == 128) {
        return Ok(None);
    }
    let count = (total - rds - 1) / spc;
    let fat_size = (count + count / 2 + bps64 - 1) / bps64;
    assert(fat_size == g.4);
    proof {
        let x: int = count + count / 2 + bps64 - 1;
        let q: int = bps64 as int;
        assert(x / q <= 0x1000_0000) by (nonlinear_arith)
            requires x <= 0xFFFF_FFFF * 2 + 0xFFFF, q >= 512;
    }
    assert(nfats * fat_size <= 0xFF * 0x1000_0000) by (nonlinear_arith)
        requires nfats <= 0xFF, fat_size <= 0x1000_0000;
    if total < rds + nfats * fat_size + 1 {
        return Ok(None);
    }
    let count2 = (total - rds - nfats * fat_size - 1) / spc;
    proof {
        let x: int = total - rds - nfats * fat_size - 1;
        let q: int = spc as int;
        assert((x / q) * q <= x) by (nonlinear_arith)
            requires q > 0, x >= 0;
    }
    let reserved = total - count2 * spc - nfats * fat_size - rds;
    assert(reserved == g.5);
    if fat_size > 0xFFFF || reserved > 0xFFFF {
        return Ok(None);
    }
    Ok(Some((bps64, spc, total, rds, fat_size, reserved)))
}

/// Zeroes sectors `0..meta` of the tracker's device.
fn zero_sectors<D: Disk>(w: &mut DiskWrapper<D>, meta: usize, bps: usize) -> (r: Result<(), DiskErr>)
    requires
        old(w).wf(),
        bps > 0,
        meta * bps <= old(w).contents().len(),
    ensures
        final(w).wf(),
        final(w).infos() == old(w).infos(),
        final(w).readers() == old(w).readers(),
        final(w).writers() == old(w).writers(),
        r is Ok ==> final(w).contents() == zeros(meta * bps) + old(w).contents().subrange(
            meta * bps,
            old(w).contents().len() as int,
        ),
        final(w).inner().reliable() == old(w).inner().reliable(),
        forall|s: int, l: int, x: bool| #[trigger] final(w).inner().refuses(s, l, x) == old(w).inner().refuses(s, l, x),
        old(w).inner().reliable() && refuses_nothing(&old(w).inner()) && old(w).readers().len() == 0
            && old(w).writers().len() == 0 && old(w).infos().permissions.write && old(w).infos().sector_size.supports(
            bps as int,
            old(w).infos().disk_size as int,
        ) ==> r is Ok,
{
    let ghost c0 = w.contents();
    let zero = vec![0u8; bps];
    assert(zero@ =~= zeros(bps as int));
    let mut i: usize = 0;
    proof {
        w.lemma_contents_len();
        assert(w.contents() =~= zeros(0 * bps) + c0.subrange(0 * bps, c0.len() as int));
    }
    while i < meta
        invariant
            w.wf(),
            w.infos() == old(w).infos(),
            w.readers() == old(w).readers(),
            w.writers() == old(w).writers(),
            w.inner().reliable() == old(w).inner().reliable(),
            forall|s: int, l: int, x: bool| #[trigger] w.inner().refuses(s, l, x) == old(w).inner().refuses(s, l, x),
            c0 == old(w).contents(),
            w.contents().len() == c0.len(),
            zero@ == zeros(bps as int),
            bps > 0,
            i <= meta,
            meta * bps <= c0.len(),
            w.contents() == zeros(i * bps) + c0.subrange(i * bps, c0.len() as int),
        decreases meta - i,
    {
        proof {
            assert((i + 1) * bps == i * bps + bps) by (nonlinear_arith);
            assert((i + 1) * bps <= meta * bps) by (nonlinear_arith)
                requires i + 1 <= meta, bps > 0;
            w.lemma_contents_len();
            w.lemma_tracker_spec();
            if w.readers().len() == 0 {
                assert(!crate::wrappers::any_overlap(w.readers(), i * bps, i * bps + bps));
            }
            if w.writers().len() == 0 {
                assert(!crate::wrappers::any_overlap(w.writers(), i * bps, i * bps + bps));
            }
        }
        w.write_direct(i, zero.as_slice())?;
        proof {
            w.lemma_contents_len();
            assert(w.contents() =~= zeros((i + 1) * bps) + c0.subrange((i + 1) * bps, c0.len() as int));
        }
        i += 1;
    }
    Ok(())
}

/// Span I/O below byte `limit` is owed success: the tracker's device is reliable and refuses
/// nothing, no writer (for a write, no borrow at all) overlaps `[0, limit)`, the device grants
/// reading (and writing, for a write) and supports `bps`-byte sectors.
pub open spec fn span_owed<D: Disk>(w: DiskWrapper<D>, bps: int, write: bool, limit: int) -> bool {
    &&& w.inner().reliable()
    &&& refuses_nothing(&w.inner())
    &&& !any_overlap(w.writers(), 0, limit)
    &&& write ==> !any_overlap(w.readers(), 0, limit)
    &&& w.infos().permissions.read
    &&& write ==> w.infos().permissions.write
    &&& w.infos().sector_size.supports(bps, w.infos().disk_size as int)
}

/// The end of the volume's metadata on the device: boot sector, FATs and root directory.
pub open spec fn meta_end(b: Seq<u8>) -> int {
    bpb_first_data_sector(b) * bpb_bytes_per_sector(b)
}

/// Span I/O owed success up to `l2` is owed it up to any `l1` below.
proof fn lemma_span_owed_narrow<D: Disk>(w: DiskWrapper<D>, bps: int, write: bool, l1: int, l2: int)
    requires
        0 <= l1 <= l2,
        span_owed(w, bps, write, l2),
    ensures
        span_owed(w, bps, write, l1),
{
    crate::wrappers::lemma_no_overlap_within(w.writers(), 0, l1, l2);
    if write {
        crate::wrappers::lemma_no_overlap_within(w.readers(), 0, l1, l2);
    }
}

/// The end of the sectors that `len` bytes at byte `off` of sector `sector` touch.
pub open spec fn span_end(sector: int, off: int, len: int, bps: int) -> int {
    if off + len <= bps {
        (sector + 1) * bps
    } else {
        (sector + 2) * bps
    }
}

/// The volume's metadata (boot sector, FATs, root directory) lies within the device.
pub open spec fn metadata_within(b: Seq<u8>, size: int) -> bool {
    bpb_first_data_sector(b) * bpb_bytes_per_sector(b) <= size
}

/// The whole volume lies within a device of `size` bytes.
pub open spec fn volume_within(b: Seq<u8>, size: int) -> bool {
    bpb_total_sectors(b) * bpb_bytes_per_sector(b) <= size
}

/// The tracker can lend `parts` in `mode`: no part conflicts with what is lent out, no two
/// parts overlap, each lies within the device, and their total size fits in `usize`.
#[verifier::opaque]
pub open spec fn lend_ok(
    readers: Seq<(usize, usize)>,
    writers: Seq<(usize, usize)>,
    parts: Seq<(usize, usize)>,
    mode: Permissions,
    size: int,
) -> bool {
    &&& !some_part_conflicts(readers, writers, parts, mode)
    &&& parts_disjoint(parts)
    &&& ranges_within(parts, size)
    &&& total_len(parts) <= usize::MAX
}

/// A FAT12 volume mounted over a device, which a borrow tracker owns.
pub struct Fat12<D: Disk> {
    raw: Fat12Raw,
    disk: DiskWrapper<D>,
    bps: usize,
    spc: usize,
    reserved: usize,
    nfats: usize,
    fat_size: usize,
    root_entries: usize,
    first_data_sector: usize,
    clusters_count: usize,
}

impl<D: Disk> Fat12<D> {
    pub closed spec fn spec_bpb(&self) -> Seq<u8> {
        self.raw.bpb@
    }

    pub closed spec fn spec_disk(&self) -> DiskWrapper<D> {
        self.disk
    }

    pub open spec fn spec_clusters_count(&self) -> int {
        bpb_clusters_count(self.spec_bpb())
    }

    /// The boot sector describes a FAT12 volume, and the cached geometry agrees with it.
    pub closed spec fn wf(&self) -> bool {
        let b = self.raw.bpb@;
        &&& self.disk.wf()
        &&& bpb_is_fat12(b)
        &&& self.bps == bpb_bytes_per_sector(b)
        &&& self.spc == bpb_sectors_per_cluster(b)
        &&& self.reserved == bpb_reserved_sectors(b)
        &&& self.nfats == bpb_number_of_fats(b)
        &&& self.fat_size == bpb_fat_size(b)
        &&& self.root_entries == bpb_root_entries(b)
        &&& self.first_data_sector == bpb_first_data_sector(b)
        &&& self.clusters_count == bpb_clusters_count(b)
        &&& bpb_total_sectors(b) <= 0xFFFF_FFFF
    }

    /// A mounted volume's boot sector describes a FAT12 volume, and its tracker is consistent.
    pub proof fn lemma_wf(&self)
        requires
            self.wf(),
        ensures
            self.spec_disk().wf(),
            self.spec_bpb().len() == 512,
            bpb_is_fat12(self.spec_bpb()),
    {
    }

    /// Mounts the volume on `disk`: `None` when sector 0 is not the boot sector of a FAT12
    /// volume.
    pub fn read_from_disk(disk: D) -> (r: Result<Option<Self>, DiskErr>)
        requires
            disk.wf(),
        ensures
            none_ge(disk.infos().sector_size, 512, disk.infos().disk_size as int) ==> r is Err,
            disk.reliable() && refuses_nothing(&disk) && disk.infos().permissions.read && !none_ge(
                disk.infos().sector_size,
                512,
                disk.infos().disk_size as int,
            ) ==> r is Ok,
            r matches Ok(Some(fs)) ==> {
                &&& fs.wf()
                &&& fs.spec_bpb() == disk.contents().subrange(0, 512)
                &&& fs.spec_disk().inner() == disk
                &&& fs.spec_disk().readers().len() == 0 && fs.spec_disk().writers().len() == 0
            },
            r matches Ok(None) ==> !bpb_is_fat12(disk.contents().subrange(0, 512)),
    {
        let raw = match Fat12Raw::read_from_disk(&disk)? {
            Some(raw) => raw,
            None => {
                return Ok(None);
            },
        };
        let disk = DiskWrapper::new(disk)?;
        Ok(Some(Self::mount(raw, disk)))
    }

    /// Formats `disk` as a FAT12 volume with `number_of_fats` FATs, `hidden_sectors` hidden
    /// sectors and `root_dir_entries` root directory entries, at the given or default sector
    /// and cluster sizes; then mounts it. `None` (not formatted) when a check on the arguments
    /// or on the computed geometry fails, or the result would not be a FAT12 volume. Fails
    /// with `InvalidDiskSize` when the device holds more than `0xFFFF_FFFF` sectors.
    #[verifier::rlimit(60)]
    pub fn new(
        disk: D,
        root_dir_entries: usize,
        number_of_fats: usize,
        hidden_sectors: usize,
        sector_size: Option<usize>,
        sectors_per_cluster: Option<usize>,
    ) -> (r: Result<Option<Self>, DiskErr>)
        requires
            disk.wf(),
        ensures
            ({
                let g = format_geometry(
                    disk.infos().sector_size,
                    disk.infos().disk_size as int,
                    root_dir_entries as int,
                    number_of_fats as int,
                    sector_size,
                    sectors_per_cluster,
                );
                let bytes = format_bytes(g, root_dir_entries as int, number_of_fats as int, hidden_sectors as int);
                let meta = g.5 + number_of_fats * g.4 + g.3;
                &&& format_args_ok(g.0, root_dir_entries as int, number_of_fats as int, hidden_sectors as int)
                    && g.2 > 0xFFFF_FFFF ==> r is Err
                &&& r matches Ok(Some(fs)) ==> {
                    &&& format_args_ok(g.0, root_dir_entries as int, number_of_fats as int, hidden_sectors as int)
                    &&& g.2 <= 0xFFFF_FFFF
                    &&& format_geometry_ok(g, number_of_fats as int)
                    &&& fs.wf()
                    &&& fs.spec_bpb() == bytes
                    &&& fs.spec_disk().readers().len() == 0 && fs.spec_disk().writers().len() == 0
                    &&& fs.spec_disk().infos() == disk.infos()
                    &&& fs.spec_disk().inner().reliable() == disk.reliable()
                    &&& disk.infos().sector_size.supports(g.0, disk.infos().disk_size as int)
                    &&& meta * g.0 <= disk.infos().disk_size
                    &&& refuses_nothing(&disk) ==> refuses_nothing(&fs.spec_disk().inner())
                    &&& fs.spec_disk().contents() == bytes + zeros(meta * g.0 - 512) + disk.contents().subrange(
                        meta * g.0,
                        disk.contents().len() as int,
                    )
                }
                &&& r matches Ok(None) ==> !(format_args_ok(g.0, root_dir_entries as int, number_of_fats as int, hidden_sectors as int)
                    && g.2 <= 0xFFFF_FFFF && format_geometry_ok(g, number_of_fats as int) && bpb_is_fat12(bytes))
                &&& disk.reliable() && !(format_args_ok(g.0, root_dir_entries as int, number_of_fats as int, hidden_sectors as int)
                    && g.2 <= 0xFFFF_FFFF && format_geometry_ok(g, number_of_fats as int) && bpb_is_fat12(bytes))
                    && !(format_args_ok(g.0, root_dir_entries as int, number_of_fats as int, hidden_sectors as int)
                    && g.2 > 0xFFFF_FFFF) ==> (r matches Ok(None))
                &&& disk.reliable() && refuses_nothing(&disk) && disk.infos().permissions.write && disk.infos().sector_size.supports(
                    g.0,
                    disk.infos().disk_size as int,
                ) && format_args_ok(g.0, root_dir_entries as int, number_of_fats as int, hidden_sectors as int)
                    && g.2 <= 0xFFFF_FFFF && format_geometry_ok(g, number_of_fats as int) && bpb_is_fat12(bytes)
                    ==> r matches Ok(Some(_))
            }),
    {
        let infos = disk.disk_infos()?;
        let plan = plan_format(&infos, root_dir_entries, number_of_fats, hidden_sectors, sector_size, sectors_per_cluster)?;
        let (bps64, spc, total, rds, fat_size, reserved) = match plan {
            Some(p) => p,
            None => {
                return Ok(None);
            },
        };
        let sector0 = format_sector((bps64, spc, total, rds, fat_size, reserved), root_dir_entries as u64, number_of_fats as u64, hidden_sectors as u64);
        let bpb = match BiosParameterBlock::from_bytes(sector0.as_slice()) {
            Some(b) => b,
            None => {
                return Ok(None);
            },
        };
        assert(bpb@ =~= sector0@);
        if !is_fat12(&bpb) {
            return Ok(None);
        }
        let ghost c0 = disk.contents();
        let mut wrapper = DiskWrapper::new(disk)?;
        let bps = bps64 as usize;
        let meta = (reserved + number_of_fats as u64 * fat_size + rds) as usize;
        proof {
            wrapper.lemma_contents_len();
            assert(total * bps <= c0.len()) by (nonlinear_arith)
                requires total == (c0.len() as int) / (bps as int), bps > 0;
            assert(meta * bps <= total * bps) by (nonlinear_arith)
                requires meta <= total, bps >= 0;
            assert(meta >= 1);
        }
        let ghost w0 = wrapper;
        zero_sectors(&mut wrapper, meta, bps)?;
        proof {
            if refuses_nothing(&w0.inner()) {
                assert forall|s: int, l: int, x: bool| !#[trigger] wrapper.inner().refuses(s, l, x) by {
                    assert(!w0.inner().refuses(s, l, x));
                }
            }
        }
        let mut first: Vec<u8> = sector0;
        push_zeros(&mut first, bps - 512);
        wrapper.write_direct(0, first.as_slice())?;
        proof {
            assert(meta * bps >= bps) by (nonlinear_arith)
                requires meta >= 1, bps >= 0;
            assert(wrapper.contents() =~= bpb@ + zeros(meta * bps - 512) + c0.subrange(meta * bps, c0.len() as int));
        }
        Ok(Some(Self::mount(Fat12Raw { bpb }, wrapper)))
    }

    fn mount(raw: Fat12Raw, disk: DiskWrapper<D>) -> (r: Self)
        requires
            raw.spec_bpb().len() == 512,
            bpb_is_fat12(raw.spec_bpb()),
            disk.wf(),
        ensures
            r.wf(),
            r.spec_bpb() == raw.spec_bpb(),
            r.spec_disk() == disk,
    {
        let b = &raw.bpb;
        let bps = b.bytes_per_sector() as usize;
        let spc = b.sectors_per_cluster() as usize;
        let reserved = b.reserved_sectors_count() as usize;
        let nfats = b.number_of_fats() as usize;
        let fat_size = b.fat_size() as usize;
        let root_entries = b.root_entries_count() as usize;
        let total = b.total_sectors() as usize;
        assert(nfats * fat_size <= 255 * 65535) by (nonlinear_arith)
            requires nfats <= 255, fat_size <= 65535;
        let rds = (root_entries * 32 + bps - 1) / bps;
        let first_data_sector = reserved + nfats * fat_size + rds;
        let clusters_count = (total - first_data_sector) / spc;
        Fat12 {
            raw,
            disk,
            bps,
            spc,
            reserved,
            nfats,
            fat_size,
            root_entries,
            first_data_sector,
            clusters_count,
        }
    }

    /// Writes the boot sector to the device.
    pub fn write(&mut self) -> (r: Result<(), DiskErr>)
        requires
            old(self).wf(),
        ensures
            final(self).wf(),
            final(self).spec_bpb() == old(self).spec_bpb(),
            final(self).spec_disk().infos() == old(self).spec_disk().infos(),
            r is Ok ==> exists|s: int|
                is_smallest_ge(old(self).spec_disk().infos().sector_size, 512, old(self).spec_disk().infos().disk_size as int, s)
                    && final(self).spec_disk().contents() == splice(
                    old(self).spec_disk().contents(),
                    0,
                    old(self).spec_bpb() + zeros(s - 512),
                ),
            span_owed(old(self).spec_disk(), bpb_bytes_per_sector(old(self).spec_bpb()), true, bpb_bytes_per_sector(old(self).spec_bpb())) ==> r is Ok,
    {
        proof {
            self.lemma_wf();
            self.disk.lemma_tracker_spec();
            let bps = self.bps as int;
            if span_owed(self.disk, bps, true, bps) {
                let cap = self.disk.infos().sector_size;
                let d = self.disk.infos().disk_size as int;
                assert(cap.supports(bps, d));
                assert forall|s0: int| #[trigger] is_smallest_ge(cap, 512, d, s0) implies !self.disk.refuses(0, s0, true) by {
                    if s0 > bps {
                        assert(!cap.supports(bps, d));
                    }
                    crate::wrappers::lemma_no_overlap_within(self.disk.writers(), 0, s0, bps);
                    crate::wrappers::lemma_no_overlap_within(self.disk.readers(), 0, s0, bps);
                    assert(!self.disk.inner().refuses(0, s0, true));
                }
            }
        }
        self.raw.write_to_disk(&mut self.disk)
    }

    /// Gives the device back, with whatever file sub-devices are left unreachable.
    pub fn into_inner(self) -> (r: D)
        requires
            self.wf(),
        ensures
            r == self.spec_disk().inner(),
            r.wf(),
            r.contents() == self.spec_disk().contents(),
            r.infos() == self.spec_disk().infos(),
            r.reliable() == self.spec_disk().reliable(),
    {
        self.disk.into_inner()
    }

    /// The boot sector.
    pub fn bios_parameter_block(&self) -> (r: BiosParameterBlock)
        ensures
            r@ == self.spec_bpb(),
    {
        self.raw.bpb.duplicate()
    }

    /// The number of data clusters.
    pub fn clusters_count(&self) -> (r: usize)
        requires
            self.wf(),
        ensures
            r == self.spec_clusters_count(),
    {
        self.clusters_count
    }

    /// Reads entry `n` of the active FAT (copy 0). Fails with `IndexOutOfRange` when `n` is not
    /// below the cluster count.
    pub fn get_fat_entry(&self, n: usize) -> (r: Result<u16, DiskErr>)
        requires
            self.wf(),
        ensures
            n >= self.spec_clusters_count() ==> r == Err::<u16, DiskErr>(DiskErr::IndexOutOfRange),
            r matches Ok(v) ==> n < self.spec_clusters_count() && v == fat_entry(
                self.spec_bpb(),
                self.spec_disk().contents(),
                n as int,
            ),
            n < self.spec_clusters_count() && !entry_in_fat(self.spec_bpb(), n as int) ==> r
                == Err::<u16, DiskErr>(DiskErr::IOErr),
            n < self.spec_clusters_count() && entry_in_fat(self.spec_bpb(), n as int) && span_owed(self.spec_disk(),
                bpb_bytes_per_sector(self.spec_bpb()), false, meta_end(self.spec_bpb())) && metadata_within(self.spec_bpb(), self.spec_disk().infos().disk_size as int) ==> r is Ok,
    {
        if n >= self.clusters_count {
            return Err(DiskErr::IndexOutOfRange);
        }
        proof {
            assert(self.fat_size * self.bps <= 65535 * 32768) by (nonlinear_arith)
                requires self.fat_size <= 65535, self.bps <= 32768;
        }
        if n + n / 2 + 1 >= self.fat_size * self.bps {
            return Err(DiskErr::IOErr);
        }
        proof {
            lemma_fat_span(self.raw.bpb@, 0, n as int);
            assert((self.reserved + self.fat_size) * self.bps <= (self.reserved + self.nfats * self.fat_size) * self.bps) by (nonlinear_arith)
                requires self.nfats >= 1, self.bps > 0, self.fat_size >= 0;
        }
        let o = n + n / 2;
        let sector = self.reserved + o / self.bps;
        let off = o % self.bps;
        proof {
            let bps = self.bps as int;
            if span_owed(self.disk, bps, false, meta_end(self.raw.bpb@)) {
                assert(sector * bps >= 0) by (nonlinear_arith)
                    requires bps > 0;
                lemma_span_owed_narrow(self.disk, bps, false, span_end(sector as int, off as int, 2, bps), meta_end(self.raw.bpb@));
            }
        }
        let bytes = self.read_span(sector, off, 2)?;
        proof {
            lemma_sector_offset(self.reserved as int, o as int, self.bps as int);
        }
        let lo = bytes[0];
        let hi = bytes[1];
        let v = if n % 2 == 0 {
            lo as u16 + 256 * ((hi % 16) as u16)
        } else {
            (lo / 16) as u16 + 16 * (hi as u16)
        };
        Ok(v)
    }

    /// Sets entry `n` to `value` (its low 12 bits) in every FAT copy, keeping the neighbouring
    /// entries' bits. Fails with `IndexOutOfRange` when `n` is not below the cluster count.
    pub fn set_fat_entry(&mut self, n: usize, value: u16) -> (r: Result<(), DiskErr>)
        requires
            old(self).wf(),
        ensures
            final(self).wf(),
            final(self).spec_bpb() == old(self).spec_bpb(),
            final(self).spec_disk().infos() == old(self).spec_disk().infos(),
            n >= old(self).spec_clusters_count() ==> r == Err::<(), DiskErr>(DiskErr::IndexOutOfRange),
            r is Ok ==> n < old(self).spec_clusters_count() && final(self).spec_disk().contents() == fat_set(
                old(self).spec_bpb(),
                old(self).spec_disk().contents(),
                n as int,
                value as int,
                bpb_number_of_fats(old(self).spec_bpb()) as nat,
            ),
            final(self).spec_disk().readers() == old(self).spec_disk().readers(),
            final(self).spec_disk().writers() == old(self).spec_disk().writers(),
            final(self).spec_disk().inner().reliable() == old(self).spec_disk().inner().reliable(),
            n < old(self).spec_clusters_count() && !entry_in_fat(old(self).spec_bpb(), n as int) ==> r
                == Err::<(), DiskErr>(DiskErr::IOErr) && final(self).spec_disk().contents() == old(self).spec_disk().contents(),
            n < old(self).spec_clusters_count() && entry_in_fat(old(self).spec_bpb(), n as int) && span_owed(old(self).spec_disk(),
                bpb_bytes_per_sector(old(self).spec_bpb()), true, meta_end(old(self).spec_bpb())) && metadata_within(old(self).spec_bpb(), old(self).spec_disk().infos().disk_size as int)
                ==> r is Ok,
    {
        if n >= self.clusters_count {
            return Err(DiskErr::IndexOutOfRange);
        }
        proof {
            assert(self.fat_size * self.bps <= 65535 * 32768) by (nonlinear_arith)
                requires self.fat_size <= 65535, self.bps <= 32768;
        }
        if n + n / 2 + 1 >= self.fat_size * self.bps {
            return Err(DiskErr::IOErr);
        }
        let ghost b = self.raw.bpb@;
        let ghost c0 = self.disk.contents();
        let o = n + n / 2;
        let w = value % 4096;
        let mut base: usize = self.reserved;
        let mut k: usize = 0;
        proof {
            self.lemma_wf();
            lemma_fat_regions(b);
        }
        while k < self.nfats
            invariant
                self.wf(),
                self.raw.bpb@ == b,
                self.disk.infos() == old(self).disk.infos(),
                self.disk.readers() == old(self).disk.readers(),
                self.disk.writers() == old(self).disk.writers(),
                self.disk.inner().reliable() == old(self).disk.inner().reliable(),
                forall|s: int, l: int, w: bool| #[trigger] self.disk.inner().refuses(s, l, w)
                    == old(self).disk.inner().refuses(s, l, w),
                b == old(self).raw.bpb@,
                c0 == old(self).disk.contents(),
                n < self.clusters_count,
                entry_in_fat(b, n as int),
                o == n + n / 2,
                w == value % 4096,
                k <= self.nfats,
                base == self.reserved + k * self.fat_size,
                self.reserved + self.nfats * self.fat_size <= 0xFFFF_FFFF,
                self.disk.contents() == fat_set(b, c0, n as int, value as int, k as nat),
            decreases self.nfats - k,
        {
            assert((k + 1) * self.fat_size <= self.nfats * self.fat_size) by (nonlinear_arith)
                requires k < self.nfats;
            assert((k + 1) * self.fat_size == k * self.fat_size + self.fat_size) by (nonlinear_arith);
            proof {
                lemma_copy_bounds(b, k as int, n as int);
                lemma_fat_span(b, k as int, n as int);
                assert(o / self.bps < self.fat_size) by (nonlinear_arith)
                    requires o + 1 < self.fat_size * self.bps, self.bps > 0;
                assert((self.reserved + (k + 1) * self.fat_size) * self.bps <= (self.reserved + self.nfats * self.fat_size) * self.bps) by (nonlinear_arith)
                    requires k + 1 <= self.nfats, self.bps > 0, self.fat_size >= 0;
            }
            let sector = base + o / self.bps;
            let off = o % self.bps;
            proof {
                lemma_sector_offset(base as int, o as int, self.bps as int);
            }
            proof {
                let bps = self.bps as int;
                if span_owed(self.disk, bps, true, meta_end(b)) {
                    assert(sector * bps >= 0) by (nonlinear_arith)
                        requires bps > 0;
                    lemma_fats_before_data(b);
                    lemma_span_owed_narrow(self.disk, bps, true, span_end(sector as int, off as int, 2, bps), meta_end(b));
                    lemma_span_owed_narrow(self.disk, bps, false, span_end(sector as int, off as int, 2, bps), meta_end(b));
                }
            }
            let bytes = self.read_span(sector, off, 2)?;
            let lo = bytes[0];
            let hi = bytes[1];
            let (lo2, hi2) = if n % 2 == 0 {
                ((w % 256) as u8, (hi / 16) * 16 + (w / 256) as u8)
            } else {
                (lo % 16 + 16 * (w % 16) as u8, (w / 16) as u8)
            };
            let mut data: Vec<u8> = Vec::new();
            data.push(lo2);
            data.push(hi2);
            let ghost c = self.disk.contents();
            self.write_span(sector, off, data.as_slice())?;
            proof {
                let pos = fat_offset(b, k as int, n as int);
                assert(pos == sector * self.bps + off);
                assert(data@ == seq![packed_bytes(c[pos], c[pos + 1], n as int, value as int).0, packed_bytes(c[pos], c[pos + 1], n as int, value as int).1]);
                assert(self.disk.contents() =~= fat_set_at(c, pos, n as int, value as int));
            }
            base = base + self.fat_size;
            k += 1;
        }
        Ok(())
    }

    /// Reads root directory entry `i`. Fails with `IndexOutOfRange` when `i` is not below the
    /// root entry count.
    pub fn get_root_dir_entry(&self, i: usize) -> (r: Result<DirEntry, DiskErr>)
        requires
            self.wf(),
        ensures
            i >= bpb_root_entries(self.spec_bpb()) ==> r == Err::<DirEntry, DiskErr>(DiskErr::IndexOutOfRange),
            r matches Ok(e) ==> i < bpb_root_entries(self.spec_bpb()) && dir_entry_bytes(e)
                == self.spec_disk().contents().subrange(
                root_entry_offset(self.spec_bpb(), i as int),
                root_entry_offset(self.spec_bpb(), i as int) + 32,
            ),
            i < bpb_root_entries(self.spec_bpb()) && span_owed(self.spec_disk(),
                bpb_bytes_per_sector(self.spec_bpb()), false, meta_end(self.spec_bpb())) && metadata_within(self.spec_bpb(), self.spec_disk().infos().disk_size as int) ==> r is Ok,
    {
        if i >= self.root_entries {
            return Err(DiskErr::IndexOutOfRange);
        }
        let (sector, off) = self.root_entry_place(i);
        proof {
            let bps = self.bps as int;
            if span_owed(self.disk, bps, false, meta_end(self.raw.bpb@)) {
                assert(sector * bps >= 0) by (nonlinear_arith)
                    requires bps > 0;
                lemma_span_owed_narrow(self.disk, bps, false, span_end(sector as int, off as int, 32, bps), meta_end(self.raw.bpb@));
            }
        }
        let bytes = self.read_span(sector, off, 32)?;
        let e = DirEntry::from_bytes(bytes.as_slice(), 0);
        proof {
            crate::fat::lemma_dir_entry_bytes_round_trip(e, bytes@, 0);
            assert(bytes@.subrange(0, 32) =~= bytes@);
        }
        Ok(e)
    }

    /// Writes root directory entry `i`. Fails with `IndexOutOfRange` when `i` is not below the
    /// root entry count.
    pub fn set_root_dir_entry(&mut self, i: usize, value: DirEntry) -> (r: Result<(), DiskErr>)
        requires
            old(self).wf(),
        ensures
            final(self).wf(),
            final(self).spec_bpb() == old(self).spec_bpb(),
            final(self).spec_disk().infos() == old(self).spec_disk().infos(),
            i >= bpb_root_entries(old(self).spec_bpb()) ==> r == Err::<(), DiskErr>(DiskErr::IndexOutOfRange),
            r is Ok ==> i < bpb_root_entries(old(self).spec_bpb()) && final(self).spec_disk().contents()
                == splice(
                old(self).spec_disk().contents(),
                root_entry_offset(old(self).spec_bpb(), i as int),
                dir_entry_bytes(value),
            ),
            final(self).spec_disk().readers() == old(self).spec_disk().readers(),
            final(self).spec_disk().writers() == old(self).spec_disk().writers(),
            final(self).spec_disk().inner().reliable() == old(self).spec_disk().inner().reliable(),
            i < bpb_root_entries(old(self).spec_bpb()) && span_owed(old(self).spec_disk(),
                bpb_bytes_per_sector(old(self).spec_bpb()), true, meta_end(old(self).spec_bpb())) && metadata_within(old(self).spec_bpb(), old(self).spec_disk().infos().disk_size as int)
                ==> r is Ok,
    {
        if i >= self.root_entries {
            return Err(DiskErr::IndexOutOfRange);
        }
        let (sector, off) = self.root_entry_place(i);
        let bytes = value.to_bytes();
        proof {
            let bps = self.bps as int;
            if span_owed(self.disk, bps, true, meta_end(self.raw.bpb@)) {
                assert(sector * bps >= 0) by (nonlinear_arith)
                    requires bps > 0;
                lemma_span_owed_narrow(self.disk, bps, true, span_end(sector as int, off as int, 32, bps), meta_end(self.raw.bpb@));
            }
        }
        self.write_span(sector, off, bytes.as_slice())
    }

    /// The sector and the offset in it of root directory entry `i`.
    fn root_entry_place(&self, i: usize) -> (r: (usize, usize))
        requires
            self.wf(),
            i < bpb_root_entries(self.spec_bpb()),
        ensures
            r.1 + 32 <= self.bps,
            r.0 * self.bps + r.1 == root_entry_offset(self.spec_bpb(), i as int),
            (r.0 + 1) * self.bps <= bpb_first_data_sector(self.spec_bpb()) * self.bps,
    {
        let b = &self.raw.bpb;
        proof {
            lemma_fat_regions(self.raw.bpb@);
            lemma_root_place(self.bps as int, i as int, self.root_entries as int);
        }
        let rel = 32 * i;
        let base = self.reserved + self.nfats * self.fat_size;
        let sector = base + rel / self.bps;
        let off = rel % self.bps;
        proof {
            lemma_sector_offset(base as int, rel as int, self.bps as int);
            assert(sector + 1 <= self.first_data_sector);
            assert((sector + 1) * self.bps <= self.first_data_sector * self.bps) by (nonlinear_arith)
                requires sector + 1 <= self.first_data_sector, self.bps > 0;
        }
        (sector, off)
    }

    /// Reads `count` whole sectors from sector `first`.
    fn read_sectors(&self, first: usize, count: usize) -> (r: Result<Vec<u8>, DiskErr>)
        requires
            self.wf(),
            count >= 1,
            first + count <= 0xFFFF_FFFF,
        ensures
            r matches Ok(v) ==> v@ == self.disk.contents().subrange(
                first * self.bps,
                (first + count) * self.bps,
            ) && (first + count) * self.bps <= self.disk.contents().len() && v@.len() == count
                * self.bps,
            span_owed(self.disk, self.bps as int, false, (first + count) * self.bps) && (first + count) * self.bps
                <= self.disk.infos().disk_size ==> r is Ok,
    {
        let bps = self.bps;
        let mut out: Vec<u8> = Vec::new();
        let mut j: usize = 0;
        proof {
            self.disk.lemma_contents_len();
            assert(first * bps >= 0) by (nonlinear_arith)
                requires first >= 0, bps >= 0;
        }
        while j < count
            invariant
                self.wf(),
                bps == self.bps,
                span_owed(self.disk, bps as int, false, (first + count) * bps) && (first + count) * bps
                    <= self.disk.infos().disk_size ==> (first + count) * bps <= self.disk.infos().disk_size,
                j <= count,
                first + count <= 0xFFFF_FFFF,
                self.disk.contents().len() == self.disk.infos().disk_size,
                j > 0 ==> (first + j) * bps <= self.disk.contents().len(),
                j > 0 ==> out@ == self.disk.contents().subrange(first * bps, (first + j) * bps),
                j == 0 ==> out@.len() == 0,
                first * bps >= 0,
            decreases count - j,
        {
            proof {
                assert((first + j) * bps + bps == (first + j + 1) * bps) by (nonlinear_arith);
                assert((first + j + 1) * bps <= (first + count) * bps) by (nonlinear_arith)
                    requires j + 1 <= count, bps > 0;
                self.disk.lemma_tracker_spec();
                if span_owed(self.disk, bps as int, false, (first + count) * bps) {
                    assert(first * bps >= 0 && (first + j) * bps >= 0) by (nonlinear_arith)
                        requires bps > 0;
                    crate::wrappers::lemma_no_overlap_within(self.disk.writers(), (first + j) * bps, (first + j) * bps + bps, (first + count) * bps);
                    assert(!self.disk.inner().refuses((first + j) as int, bps as int, false));
                }
            }
            let mut buf = vec![0u8; bps];
            self.disk.read_direct(first + j, &mut buf)?;
            let mut i: usize = 0;
            let ghost before = out@;
            while i < bps
                invariant
                    i <= bps,
                    buf@.len() == bps,
                    out@ == before + buf@.subrange(0, i as int),
                decreases bps - i,
            {
                out.push(buf[i]);
                i += 1;
            }
            proof {
                assert(buf@.subrange(0, bps as int) =~= buf@);
                assert(first * bps <= (first + j) * bps) by (nonlinear_arith)
                    requires j >= 0, bps >= 0;
                if j == 0 {
                    assert(first * bps == (first + j) * bps);
                }
                assert(out@ =~= self.disk.contents().subrange(first * bps, (first + j + 1) * bps));
            }
            j += 1;
        }
        proof {
            assert((first + count) * bps - first * bps == count * bps) by (nonlinear_arith);
        }
        Ok(out)
    }

    /// The first `count` free (zero) entries of the active FAT among the data clusters, in
    /// order; `None` when there are fewer.
    pub fn find_free_clusters(&self, count: usize) -> (r: Result<Option<Vec<usize>>, DiskErr>)
        requires
            self.wf(),
        ensures
            r matches Ok(Some(l)) ==> count <= free_entries(
                self.spec_bpb(),
                self.spec_disk().contents(),
                self.spec_clusters_count(),
            ).len() && l@ == free_entries(
                self.spec_bpb(),
                self.spec_disk().contents(),
                self.spec_clusters_count(),
            ).take(count as int),
            r matches Ok(None) ==> free_entries(
                self.spec_bpb(),
                self.spec_disk().contents(),
                self.spec_clusters_count(),
            ).len() < count,
            count > 0 && !fat_room(self.spec_bpb()) ==> r == Err::<Option<Vec<usize>>, DiskErr>(DiskErr::IOErr),
            fat_room(self.spec_bpb()) && span_owed(self.spec_disk(), bpb_bytes_per_sector(self.spec_bpb()), false, meta_end(self.spec_bpb())) && metadata_within(
                self.spec_bpb(),
                self.spec_disk().infos().disk_size as int,
            ) ==> r is Ok,
    {
        let ghost b = self.raw.bpb@;
        let ghost c = self.disk.contents();
        let mut found: Vec<usize> = Vec::new();
        if count == 0 {
            assert(found@ =~= free_entries(b, c, self.clusters_count as int).take(0));
            return Ok(Some(found));
        }
        let cc = self.clusters_count;
        proof {
            assert(self.fat_size * self.bps <= 65535 * 32768) by (nonlinear_arith)
                requires self.fat_size <= 65535, self.bps <= 32768;
        }
        if cc + cc / 2 >= self.fat_size * self.bps {
            return Err(DiskErr::IOErr);
        }
        proof {
            lemma_fat_regions(b);
            assert(cc + cc / 2 + 1 <= self.fat_size * self.bps);
            let x: int = cc + cc / 2;
            let p: int = self.bps as int;
            let f: int = self.fat_size as int;
            assert((x + p) / p <= f) by (nonlinear_arith)
                requires x + 1 <= f * p, p > 0;
            assert((x + p) / p * p >= x + 1) by (nonlinear_arith)
                requires p > 0, x >= 0;
        }
        let nsec = (cc + cc / 2 + self.bps) / self.bps;
        proof {
            lemma_fats_before_data(b);
            assert((self.reserved + nsec) * self.bps <= (self.reserved + self.nfats * self.fat_size) * self.bps) by (nonlinear_arith)
                requires nsec <= self.fat_size, self.nfats >= 1, self.bps > 0;
            let x: int = cc + cc / 2;
            let p: int = self.bps as int;
            assert((x + p) / p >= 1) by (nonlinear_arith)
                requires p > 0, x >= 0;
            assert((self.reserved + nsec) * self.bps == self.reserved * self.bps + nsec * self.bps) by (nonlinear_arith);
        }
        proof {
            if span_owed(self.disk, self.bps as int, false, meta_end(b)) {
                lemma_span_owed_narrow(self.disk, self.bps as int, false, (self.reserved + nsec) * self.bps, meta_end(b));
            }
        }
        let fat = self.read_sectors(self.reserved, nsec)?;
        let mut n: usize = 2;
        while n < cc
            invariant
                self.wf(),
                b == self.raw.bpb@,
                c == self.disk.contents(),
                cc == self.clusters_count,
                2 <= n,
                n <= cc || n == 2,
                count > 0,
                found@.len() < count,
                found@ == free_entries(b, c, n as int),
                fat@ == c.subrange(self.reserved * self.bps, (self.reserved + nsec) * self.bps),
                fat@.len() == nsec * self.bps,
                (self.reserved + nsec) * self.bps <= c.len(),
                self.reserved * self.bps >= 0,
                cc + cc / 2 + 1 <= nsec * self.bps,
                fat_room(b),
                (self.reserved + nsec) * self.bps == self.reserved * self.bps + nsec * self.bps,
            decreases cc - n,
        {
            let o = n + n / 2;
            let lo = fat[o];
            let hi = fat[o + 1];
            let v = if n % 2 == 0 {
                lo as u16 + 256 * ((hi % 16) as u16)
            } else {
                (lo / 16) as u16 + 16 * (hi as u16)
            };
            proof {
                let base = self.reserved * self.bps;
                assert(fat_offset(b, 0, n as int) == base + o);
                assert(fat@[o as int] == c[base + o]);
                assert(fat@[o + 1] == c[base + o + 1]);
                assert(v == fat_entry(b, c, n as int));
            }
            proof {
                lemma_free_entries_step(b, c, n as int);
            }
            if v == 0 {
                found.push(n);
                if found.len() == count {
                    proof {
                        assert(free_entries(b, c, n as int + 1) == free_entries(b, c, n as int).push(n));
                        assert(found@ == free_entries(b, c, n as int + 1));
                        lemma_free_entries_prefix(b, c, n as int + 1, cc as int);
                        assert(found@.len() == count);
                    }
                    return Ok(Some(found));
                }
            }
            n += 1;
        }
        proof {
            if cc < 2 {
                assert(free_entries(b, c, cc as int).len() == 0);
            }
        }
        Ok(None)
    }

    /// Follows the cluster chain that begins at `first`, and lends out its clusters, adjacent
    /// ones merged, in `permissions` as one fragmented sub-device. Returns its size with it.
    /// Fails with `IndexOutOfRange` when `first` is not a data cluster, and with `IOErr` when
    /// the chain leads to a free, reserved, bad or missing cluster, or runs longer than the
    /// cluster count. A valid chain is never reported corrupt when the FAT reads are owed
    /// success, and the call succeeds when, besides, the volume lies within the device and the
    /// tracker can lend the merged ranges.
    #[verifier::rlimit(60)]
    pub fn get_file(&mut self, first: usize, permissions: Permissions) -> (r: Result<
        (usize, FragmentedSubDisk),
        DiskErr,
    >)
        requires
            old(self).wf(),
        ensures
            final(self).wf(),
            final(self).spec_bpb() == old(self).spec_bpb(),
            final(self).spec_disk().infos() == old(self).spec_disk().infos(),
            final(self).spec_disk().contents() == old(self).spec_disk().contents(),
            first < 2 || first >= old(self).spec_clusters_count() ==> r == Err::<
                (usize, FragmentedSubDisk),
                DiskErr,
            >(DiskErr::IndexOutOfRange),
            r is Err ==> final(self).spec_disk().readers() == old(self).spec_disk().readers()
                && final(self).spec_disk().writers() == old(self).spec_disk().writers(),
            (exists|ch: Seq<usize>|
                is_corrupt_chain(old(self).spec_bpb(), old(self).spec_disk().contents(), ch) && ch[0]
                    == first) && span_owed(
                old(self).spec_disk(),
                bpb_bytes_per_sector(old(self).spec_bpb()),
                false,
                meta_end(old(self).spec_bpb()),
            ) && metadata_within(old(self).spec_bpb(), old(self).spec_disk().infos().disk_size as int)
                ==> r == Err::<(usize, FragmentedSubDisk), DiskErr>(DiskErr::IOErr),
            (exists|ch: Seq<usize>|
                is_chain(old(self).spec_bpb(), old(self).spec_disk().contents(), ch) && ch[0] == first
                    && ch.len() <= old(self).spec_clusters_count()) && fat_room(old(self).spec_bpb()) && span_owed(old(self).spec_disk(),
                bpb_bytes_per_sector(old(self).spec_bpb()), false, meta_end(old(self).spec_bpb())) && metadata_within(old(self).spec_bpb(), old(self).spec_disk().infos().disk_size as int)
                ==> (r is Ok || r == Err::<(usize, FragmentedSubDisk), DiskErr>(DiskErr::Busy) || r
                == Err::<(usize, FragmentedSubDisk), DiskErr>(DiskErr::InvalidDiskSize)),
            (exists|ch: Seq<usize>|
                is_chain(old(self).spec_bpb(), old(self).spec_disk().contents(), ch) && ch[0] == first
                    && ch.len() <= old(self).spec_clusters_count() && lend_ok(
                    old(self).spec_disk().readers(),
                    old(self).spec_disk().writers(),
                    coalesce(cluster_ranges(old(self).spec_bpb(), ch)),
                    permissions,
                    old(self).spec_disk().infos().disk_size as int,
                )) && fat_room(old(self).spec_bpb()) && span_owed(old(self).spec_disk(),
                bpb_bytes_per_sector(old(self).spec_bpb()), false, meta_end(old(self).spec_bpb())) && volume_within(old(self).spec_bpb(), old(self).spec_disk().infos().disk_size as int)
                ==> r is Ok,
            r matches Ok((size, f)) ==> {
                &&& f.wf()
                &&& f.spec_permissions() == permissions
                &&& size == total_len(f.spec_parts())
                &&& exists|ch: Seq<usize>|
                    is_chain(old(self).spec_bpb(), old(self).spec_disk().contents(), ch) && ch[0]
                        == first && f.spec_parts() == coalesce(
                        cluster_ranges(old(self).spec_bpb(), ch),
                    ) && ranges_within(
                        cluster_ranges(old(self).spec_bpb(), ch),
                        old(self).spec_disk().infos().disk_size as int,
                    )
                &&& final(self).spec_disk().writers() == if permissions.write {
                    old(self).spec_disk().writers() + f.spec_parts()
                } else {
                    old(self).spec_disk().writers()
                }
                &&& final(self).spec_disk().readers() == if !permissions.write && permissions.read {
                    old(self).spec_disk().readers() + f.spec_parts()
                } else {
                    old(self).spec_disk().readers()
                }
            },
    {
        let ghost b = self.raw.bpb@;
        let ghost c = self.disk.contents();
        let cc = self.clusters_count;
        if first < 2 || first >= cc {
            proof {
                assert forall|k: Seq<usize>| is_chain(b, c, k) implies k[0] != first by {
                    reveal(is_chain);
                    assert(2 <= k[0] < cc);
                }
                assert forall|k: Seq<usize>| is_corrupt_chain(b, c, k) implies k[0] != first by {
                    assert(2 <= k[0] < cc);
                }
            }
            return Err(DiskErr::IndexOutOfRange);
        }
        let ghost size = self.disk.infos().disk_size as int;
        let ghost has = exists|ch: Seq<usize>|
            is_chain(b, c, ch) && ch[0] == first && ch.len() <= cc && lend_ok(
                self.disk.readers(),
                self.disk.writers(),
                coalesce(cluster_ranges(b, ch)),
                permissions,
                size,
            );
        let ghost owed = has && fat_room(b) && span_owed(self.disk, self.bps as int, false, meta_end(b)) && volume_within(b, size);
        let ghost ch: Seq<usize> = if has {
            choose|ch: Seq<usize>|
                is_chain(b, c, ch) && ch[0] == first && ch.len() <= cc && lend_ok(
                    self.disk.readers(),
                    self.disk.writers(),
                    coalesce(cluster_ranges(b, ch)),
                    permissions,
                    size,
                )
        } else {
            Seq::empty()
        };
        proof {
            self.lemma_wf();
            lemma_fat_regions(b);
            if owed {
                assert(bpb_first_data_sector(b) * self.bps <= bpb_total_sectors(b) * self.bps) by (nonlinear_arith)
                    requires bpb_first_data_sector(b) <= bpb_total_sectors(b), self.bps > 0;
            }
        }
        let ghost walk_owed = (exists|k: Seq<usize>| is_chain(b, c, k) && k[0] == first && k.len() <= cc)
            && fat_room(b) && span_owed(self.disk, self.bps as int, false, meta_end(b)) && metadata_within(b, size);
        proof {
            if owed {
                assert(is_chain(b, c, ch) && ch[0] == first && ch.len() <= cc);
                assert(walk_owed);
            }
        }
        let chain = match self.walk_chain(first) {
            Ok(chain) => chain,
            Err(e) => {
                proof {
                    assert(!walk_owed);
                }
                return Err(e);
            },
        };
        proof {
            if owed {
                lemma_chain_unique(b, c, chain@, ch);
            }
        }
        let parts = match self.chain_parts(&chain) {
            Ok(parts) => parts,
            Err(e) => {
                proof {
                    assert(!owed);
                }
                return Err(e);
            },
        };
        let ghost rs = cluster_ranges(b, chain@);
        proof {
            if owed {
                reveal(lend_ok);
                assert(!some_part_conflicts(self.disk.readers(), self.disk.writers(), parts@, permissions));
                assert(parts_disjoint(parts@));
                assert(ranges_within(parts@, size));
                assert(total_len(parts@) <= usize::MAX);
            }
        }
        let f = self.disk.fragmented_subdisk(parts, permissions)?;
        proof {
            crate::wrappers::lemma_coalesce_within(rs, self.disk.infos().disk_size as int);
        }
        let size = f.size();
        Ok((size, f))
    }

    /// The byte ranges of the clusters of `chain`, adjacent ones merged.
    fn chain_parts(&self, chain: &Vec<usize>) -> (r: Result<Vec<(usize, usize)>, DiskErr>)
        requires
            self.wf(),
            is_chain(self.spec_bpb(), self.spec_disk().contents(), chain@),
        ensures
            r matches Ok(parts) ==> parts@ == coalesce(cluster_ranges(self.spec_bpb(), chain@))
                && forall|j: int|
                #![trigger cluster_ranges(self.spec_bpb(), chain@)[j]]
                0 <= j < chain@.len() ==> cluster_ranges(self.spec_bpb(), chain@)[j].0
                    <= cluster_ranges(self.spec_bpb(), chain@)[j].1,
            volume_within(self.spec_bpb(), self.spec_disk().infos().disk_size as int) ==> r is Ok,
            r is Err ==> r == Err::<Vec<(usize, usize)>, DiskErr>(DiskErr::InvalidDiskSize),
    {
        let ghost b = self.raw.bpb@;
        let ghost c = self.disk.contents();
        let ghost size = self.disk.infos().disk_size as int;
        let ghost vol = volume_within(b, size);
        proof {
            self.lemma_wf();
            self.disk.lemma_contents_len();
            reveal(is_chain);
        }
        let spc = self.spc;
        let bps = self.bps;
        let mut parts: Vec<(usize, usize)> = Vec::new();
        let mut i: usize = 0;
        while i < chain.len()
            invariant
                self.wf(),
                b == self.raw.bpb@,
                spc == self.spc,
                bps == self.bps,
                i <= chain@.len(),
                is_chain(b, c, chain@),
                parts@ == coalesce(cluster_ranges(b, chain@).take(i as int)),
                vol == volume_within(b, size),
                forall|j: int| 0 <= j < chain@.len() ==> 2 <= #[trigger] chain@[j] < self.clusters_count,
                size == self.disk.infos().disk_size,
                c == self.disk.contents(),
                vol ==> bpb_total_sectors(b) * bps <= size && size <= usize::MAX,
                forall|j: int|
                    #![trigger cluster_ranges(b, chain@)[j]]
                    0 <= j < i ==> cluster_ranges(b, chain@)[j].0 <= cluster_ranges(b, chain@)[j].1,
            decreases chain@.len() - i,
        {
            let cl = chain[i];
            proof {
                lemma_cluster_bounds(b, cl as int);
                lemma_fat_regions(b);
                if vol {
                    let sec = bpb_first_data_sector(b) + (cl - 2) * spc;
                    assert((sec + spc) * bps <= bpb_total_sectors(b) * bps) by (nonlinear_arith)
                        requires sec + spc <= bpb_total_sectors(b), bps > 0;
                    assert((sec + spc) * bps == sec * bps + spc * bps) by (nonlinear_arith);
                    assert(spc * bps >= 0) by (nonlinear_arith)
                        requires spc >= 0, bps >= 0;
                    assert(sec * bps + spc * bps <= usize::MAX);
                }
            }
            let sector = self.first_data_sector + (cl - 2) * spc;
            let start = match sector.checked_mul(bps) {
                Some(v) => v,
                None => {
                    return Err(DiskErr::InvalidDiskSize);
                },
            };
            let width = spc * bps;
            let end = match start.checked_add(width) {
                Some(v) => v,
                None => {
                    return Err(DiskErr::InvalidDiskSize);
                },
            };
            proof {
                assert(start == cluster_start(b, cl as int));
                assert((sector as int + spc) * bps == start + spc * bps) by (nonlinear_arith)
                    requires start == sector * bps;
                assert(cluster_ranges(b, chain@)[i as int] == (start, end));
            }
            let ghost rs = cluster_ranges(b, chain@);
            let ghost prev = parts@;
            let n = parts.len();
            if n > 0 && parts[n - 1].1 == start {
                let last = parts[n - 1];
                parts.set(n - 1, (last.0, end));
                proof {
                    assert(rs.take(i + 1).drop_last() =~= rs.take(i as int));
                    assert(rs.take(i + 1).last() == rs[i as int]);
                    assert(parts@ =~= prev.drop_last().push((prev.last().0, rs[i as int].1)));
                }
            } else {
                parts.push((start, end));
                proof {
                    assert(rs.take(i + 1).drop_last() =~= rs.take(i as int));
                    assert(rs.take(i + 1).last() == rs[i as int]);
                }
            }
            i += 1;
        }
        proof {
            assert(cluster_ranges(b, chain@).take(chain@.len() as int) =~= cluster_ranges(b, chain@));
        }
        proof {
            assert(cluster_ranges(b, chain@).take(chain@.len() as int) =~= cluster_ranges(b, chain@));
        }
        Ok(parts)
    }

    /// Follows the chain from `first` through the active FAT.
    #[verifier::loop_isolation(false)]
    #[verifier::rlimit(60)]
    fn walk_chain(&self, first: usize) -> (r: Result<Vec<usize>, DiskErr>)
        requires
            self.wf(),
            2 <= first < self.spec_clusters_count(),
        ensures
            r matches Ok(chain) ==> is_chain(self.spec_bpb(), self.spec_disk().contents(), chain@)
                && chain@[0] == first,
            (exists|ch: Seq<usize>|
                is_chain(self.spec_bpb(), self.spec_disk().contents(), ch) && ch[0] == first
                    && ch.len() <= self.spec_clusters_count()) && fat_room(self.spec_bpb()) && span_owed(self.spec_disk(),
                bpb_bytes_per_sector(self.spec_bpb()), false, meta_end(self.spec_bpb())) && metadata_within(self.spec_bpb(), self.spec_disk().infos().disk_size as int)
                ==> r is Ok,
            (exists|ch: Seq<usize>|
                is_corrupt_chain(self.spec_bpb(), self.spec_disk().contents(), ch) && ch[0] == first)
                && span_owed(
                self.spec_disk(),
                bpb_bytes_per_sector(self.spec_bpb()),
                false,
                meta_end(self.spec_bpb()),
            ) && metadata_within(self.spec_bpb(), self.spec_disk().infos().disk_size as int)
                ==> r == Err::<Vec<usize>, DiskErr>(DiskErr::IOErr),
    {
        proof {
            self.lemma_wf();
            reveal(is_chain);
        }
        let ghost b = self.raw.bpb@;
        let ghost c = self.disk.contents();
        let cc = self.clusters_count;
        let ghost owed = (exists|ch: Seq<usize>| is_chain(b, c, ch) && ch[0] == first && ch.len() <= cc)
            && fat_room(b) && span_owed(self.disk, self.bps as int, false, meta_end(b)) && metadata_within(b, self.disk.infos().disk_size as int);
        let ghost ch: Seq<usize> = if owed {
            choose|ch: Seq<usize>| is_chain(b, c, ch) && ch[0] == first && ch.len() <= cc
        } else {
            Seq::empty()
        };
        let ghost bad = (exists|k: Seq<usize>| is_corrupt_chain(b, c, k) && k[0] == first)
            && span_owed(self.disk, self.bps as int, false, meta_end(b)) && metadata_within(b, self.disk.infos().disk_size as int);
        let ghost cb: Seq<usize> = if bad {
            choose|k: Seq<usize>| is_corrupt_chain(b, c, k) && k[0] == first
        } else {
            Seq::empty()
        };
        let mut chain: Vec<usize> = Vec::new();
        chain.push(first);
        let mut cur = first;
        proof {
            if bad {
                assert(chain@ =~= cb.take(1));
            }
        }
        proof {
            if owed {
                assert(chain@ =~= ch.take(1));
            }
        }
        let mut done = false;
        while !done
            invariant
                owed ==> chain@.len() <= ch.len() && chain@ == ch.take(chain@.len() as int),
                owed && done ==> chain@ == ch,
                bad ==> chain@.len() <= cb.len() && chain@ == cb.take(chain@.len() as int),
                bad ==> !done,
                1 <= chain@.len() <= cc,
                chain@[0] == first,
                cur == chain@.last(),
                forall|i: int| 0 <= i < chain@.len() ==> 2 <= #[trigger] chain@[i] < cc,
                forall|i: int|
                    0 <= i < chain@.len() - 1 ==> fat_entry(b, c, #[trigger] chain@[i] as int)
                        == chain@[i + 1],
                done ==> fat_entry(b, c, chain@.last() as int) >= 0xFF8,
            decreases (cc - chain@.len()) * 2 + (if done {
                0int
            } else {
                1int
            }),
        {
            proof {
                lemma_fat_regions(b);
                if fat_room(b) {
                    assert(entry_in_fat(b, cur as int));
                }
            }
            let next = self.get_fat_entry(cur)? as usize;
            proof {
                lemma_fat_regions(b);
                if bad {
                    let j = chain@.len() - 1;
                    assert(cb[j] == chain@[j]);
                    lemma_fat_regions(b);
                    if j < cb.len() - 1 {
                        assert(fat_entry(b, c, cb[j] as int) == cb[j + 1]);
                        assert(2 <= cb[j + 1] < cc);
                    }
                }
                if owed {
                    let j = chain@.len() - 1;
                    assert(ch[j] == chain@[j]);
                    lemma_fat_regions(b);
                    if j < ch.len() - 1 {
                        assert(fat_entry(b, c, ch[j] as int) == ch[j + 1]);
                        assert(2 <= ch[j + 1] < cc);
                    } else {
                        assert(chain@ =~= ch);
                    }
                }
            }
            if next >= 0xFF8 {
                done = true;
            } else {
                if next < 2 || next >= cc || chain.len() >= cc {
                    return Err(DiskErr::IOErr);
                }
                let ghost before = chain@;
                chain.push(next);
                proof {
                    if owed {
                        assert(chain@ =~= ch.take(chain@.len() as int));
                    }
                    if bad {
                        assert(chain@ =~= cb.take(chain@.len() as int));
                    }
                    assert forall|i: int| 0 <= i < chain@.len() - 1 implies fat_entry(b, c, #[trigger] chain@[i] as int)
                        == chain@[i + 1] by {
                        if i < before.len() - 1 {
                            assert(chain@[i] == before[i] && chain@[i + 1] == before[i + 1]);
                        } else {
                            assert(chain@[i] == cur);
                        }
                    }
                }
                cur = next;
            }
        }
        proof {
            assert(is_chain(b, c, chain@));
        }
        Ok(chain)
    }

    /// Reads sector `sector` of a file's fragmented sub-device.
    pub fn read_file_sector(&self, f: &FragmentedSubDisk, sector: usize, buf: &mut Vec<u8>) -> (r:
        Result<(), DiskErr>)
        requires
            self.wf(),
            f.wf(),
        ensures
            final(buf)@.len() == old(buf)@.len(),
            frag_outcome(
                self.spec_disk().readers(),
                self.spec_disk().writers(),
                f,
                sector as int,
                old(buf)@.len() as int,
                false,
                r,
            ),
            r is Ok ==> final(buf)@ == frag_contents(f.spec_parts(), self.spec_disk().contents()).subrange(
                sector * old(buf)@.len(),
                sector * old(buf)@.len() + old(buf)@.len(),
            ),
            !frag_checks_pass(
                self.spec_disk().readers(),
                self.spec_disk().writers(),
                f,
                sector as int,
                old(buf)@.len() as int,
                false,
            ) ==> final(buf)@ == old(buf)@,
            frag_io_owed(&self.spec_disk(), f, sector as int, old(buf)@.len() as int, false) ==> r is Ok,
    {
        self.disk.read_fragmented_sector(f, sector, buf)
    }

    /// Writes sector `sector` of a file's fragmented sub-device.
    pub fn write_file_sector(&mut self, f: &FragmentedSubDisk, sector: usize, buf: &[u8]) -> (r:
        Result<(), DiskErr>)
        requires
            old(self).wf(),
            f.wf(),
        ensures
            final(self).wf(),
            final(self).spec_bpb() == old(self).spec_bpb(),
            final(self).spec_disk().infos() == old(self).spec_disk().infos(),
            final(self).spec_disk().readers() == old(self).spec_disk().readers(),
            final(self).spec_disk().writers() == old(self).spec_disk().writers(),
            frag_outcome(
                old(self).spec_disk().readers(),
                old(self).spec_disk().writers(),
                f,
                sector as int,
                buf@.len() as int,
                true,
                r,
            ),
            r is Ok ==> exists|i: int|
                #[trigger] holds_byte(f.spec_parts(), i, sector * buf@.len()) && final(self).spec_disk().contents()
                    == splice(
                    old(self).spec_disk().contents(),
                    f.spec_parts()[i].0 + sector * buf@.len() - part_offset(f.spec_parts(), i),
                    buf@,
                ),
            !frag_checks_pass(
                old(self).spec_disk().readers(),
                old(self).spec_disk().writers(),
                f,
                sector as int,
                buf@.len() as int,
                true,
            ) ==> final(self).spec_disk().contents() == old(self).spec_disk().contents(),
            frag_io_owed(&old(self).spec_disk(), f, sector as int, buf@.len() as int, true) ==> r is Ok,
    {
        self.disk.write_fragmented_sector(f, sector, buf)
    }

    /// Takes back what a file's sub-device borrowed.
    pub fn release_file(&mut self, f: FragmentedSubDisk)
        requires
            old(self).wf(),
        ensures
            final(self).wf(),
            final(self).spec_bpb() == old(self).spec_bpb(),
            final(self).spec_disk().infos() == old(self).spec_disk().infos(),
            final(self).spec_disk().contents() == old(self).spec_disk().contents(),
            f.spec_permissions().write ==> final(self).spec_disk().writers() == remove_each(
                old(self).spec_disk().writers(),
                f.spec_parts(),
            ) && final(self).spec_disk().readers() == old(self).spec_disk().readers(),
            !f.spec_permissions().write && f.spec_permissions().read ==> final(self).spec_disk().readers()
                == remove_each(old(self).spec_disk().readers(), f.spec_parts())
                && final(self).spec_disk().writers() == old(self).spec_disk().writers(),
    {
        self.disk.release_fragmented(f);
    }

    /// Reads `len` bytes at byte `off` of sector `sector`, on one sector or across two.
    fn read_span(&self, sector: usize, off: usize, len: usize) -> (r: Result<Vec<u8>, DiskErr>)
        requires
            self.wf(),
            off < self.bps,
            0 < len <= self.bps,
        ensures
            r matches Ok(v) ==> v@ == self.disk.contents().subrange(
                sector * self.bps + off,
                sector * self.bps + off + len,
            ) && v@.len() == len && sector * self.bps + off + len <= self.disk.contents().len(),
            span_owed(self.disk, self.bps as int, false, span_end(sector as int, off as int, len as int, self.bps as int)) && span_end(sector as int, off as int, len as int, self.bps as int)
                <= self.disk.infos().disk_size ==> r is Ok,
    {
        let bps = self.bps;
        proof {
            assert((sector + 1) * bps == sector * bps + bps) by (nonlinear_arith);
            assert((sector + 2) * bps == sector * bps + 2 * bps) by (nonlinear_arith);
            assert((sector + 2) * bps >= sector + 2) by (nonlinear_arith)
                requires bps >= 1;
            self.disk.lemma_contents_len();
            self.disk.lemma_tracker_spec();
            let lim = span_end(sector as int, off as int, len as int, bps as int);
            if span_owed(self.disk, bps as int, false, lim) {
                assert(sector * bps >= 0) by (nonlinear_arith)
                    requires bps > 0;
                crate::wrappers::lemma_no_overlap_within(self.disk.writers(), sector * bps, sector * bps + bps, lim);
                assert(!self.disk.inner().refuses(sector as int, bps as int, false));
                if off + len > bps {
                    crate::wrappers::lemma_no_overlap_within(self.disk.writers(), (sector + 1) * bps, (sector + 1) * bps + bps, lim);
                    assert(!self.disk.inner().refuses(sector + 1, bps as int, false));
                }
            }
        }
        let mut buf = vec![0u8; bps];
        self.disk.read_direct(sector, &mut buf)?;
        proof {
            self.disk.lemma_contents_len();
        }
        let mut out: Vec<u8> = Vec::new();
        if off + len <= bps {
            let mut i: usize = 0;
            while i < len
                invariant
                    i <= len,
                    off + len <= bps,
                    buf@.len() == bps,
                    out@ == buf@.subrange(off as int, off + i),
                decreases len - i,
            {
                out.push(buf[off + i]);
                i += 1;
            }
            proof {
                assert(out@ =~= self.disk.contents().subrange(sector * bps + off, sector * bps + off + len));
            }
            Ok(out)
        } else {
            let next = match sector.checked_add(1) {
                Some(n) => n,
                None => {
                    return Err(DiskErr::IOErr);
                },
            };
            let mut buf2 = vec![0u8; bps];
            self.disk.read_direct(next, &mut buf2)?;
            let first = bps - off;
            let mut i: usize = 0;
            while i < len
                invariant
                    i <= len,
                    len <= bps,
                    first == bps - off,
                    off + len > bps,
                    buf@.len() == bps,
                    buf2@.len() == bps,
                    out@.len() == i,
                    forall|j: int| 0 <= j < i && j < first ==> out@[j] == buf@[off + j],
                    forall|j: int| first <= j < i ==> out@[j] == buf2@[j - first],
                decreases len - i,
            {
                if i < first {
                    out.push(buf[off + i]);
                } else {
                    out.push(buf2[i - first]);
                }
                i += 1;
            }
            proof {
                assert((sector + 1) * bps == sector * bps + bps) by (nonlinear_arith);
                assert(out@ =~= self.disk.contents().subrange(sector * bps + off, sector * bps + off + len));
            }
            Ok(out)
        }
    }

    /// Writes `data` at byte `off` of sector `sector`, on one sector or across two, keeping the
    /// other bytes of those sectors.
    fn write_span(&mut self, sector: usize, off: usize, data: &[u8]) -> (r: Result<(), DiskErr>)
        requires
            old(self).wf(),
            off < old(self).bps,
            0 < data@.len() <= old(self).bps,
        ensures
            final(self).wf(),
            final(self).raw == old(self).raw,
            final(self).bps == old(self).bps,
            final(self).disk.infos() == old(self).disk.infos(),
            final(self).disk.readers() == old(self).disk.readers(),
            final(self).disk.writers() == old(self).disk.writers(),
            final(self).disk.inner().reliable() == old(self).disk.inner().reliable(),
            forall|s: int, l: int, w: bool| #[trigger] final(self).disk.inner().refuses(s, l, w)
                == old(self).disk.inner().refuses(s, l, w),
            r is Ok ==> final(self).disk.contents() == splice(
                old(self).disk.contents(),
                sector * old(self).bps + off,
                data@,
            ),
            span_owed(
                old(self).disk,
                old(self).bps as int,
                true,
                span_end(sector as int, off as int, data@.len() as int, old(self).bps as int),
            ) && span_end(
                sector as int,
                off as int,
                data@.len() as int,
                old(self).bps as int,
            ) <= old(self).disk.infos().disk_size ==> r is Ok,
    {
        let bps = self.bps;
        let len = data.len();
        proof {
            assert((sector + 1) * bps == sector * bps + bps) by (nonlinear_arith);
            assert((sector + 2) * bps == sector * bps + 2 * bps) by (nonlinear_arith);
            assert((sector + 2) * bps >= sector + 2) by (nonlinear_arith)
                requires bps >= 1;
            self.disk.lemma_contents_len();
            self.disk.lemma_tracker_spec();
            let lim = span_end(sector as int, off as int, data@.len() as int, bps as int);
            if span_owed(self.disk, bps as int, true, lim) {
                assert(sector * bps >= 0) by (nonlinear_arith)
                    requires bps > 0;
                crate::wrappers::lemma_no_overlap_within(self.disk.writers(), sector * bps, sector * bps + bps, lim);
                crate::wrappers::lemma_no_overlap_within(self.disk.readers(), sector * bps, sector * bps + bps, lim);
                assert(!self.disk.inner().refuses(sector as int, bps as int, false));
                assert(!self.disk.inner().refuses(sector as int, bps as int, true));
                if off + data@.len() > bps {
                    crate::wrappers::lemma_no_overlap_within(self.disk.writers(), (sector + 1) * bps, (sector + 1) * bps + bps, lim);
                    crate::wrappers::lemma_no_overlap_within(self.disk.readers(), (sector + 1) * bps, (sector + 1) * bps + bps, lim);
                    assert(!self.disk.inner().refuses(sector + 1, bps as int, false));
                    assert(!self.disk.inner().refuses(sector + 1, bps as int, true));
                }
            }
        }
        let mut buf = vec![0u8; bps];
        self.disk.read_direct(sector, &mut buf)?;
        proof {
            self.disk.lemma_contents_len();
        }
        let ghost c0 = self.disk.contents();
        if off + len <= bps {
            let mut i: usize = 0;
            while i < len
                invariant
                    i <= len,
                    len == data@.len(),
                    off + len <= bps,
                    buf@.len() == bps,
                    forall|j: int| 0 <= j < bps && !(off <= j < off + i) ==> buf@[j] == c0[sector * bps + j],
                    forall|j: int| off <= j < off + i ==> buf@[j] == data@[j - off],
                    c0.len() >= sector * bps + bps,
                decreases len - i,
            {
                buf[off + i] = data[i];
                i += 1;
            }
            let r = self.disk.write_direct(sector, buf.as_slice());
            proof {
                if r is Ok {
                    assert(splice(c0, sector * bps, buf@) =~= splice(c0, sector * bps + off, data@));
                }
            }
            r
        } else {
            let next = match sector.checked_add(1) {
                Some(n) => n,
                None => {
                    return Err(DiskErr::IOErr);
                },
            };
            let mut buf2 = vec![0u8; bps];
            self.disk.read_direct(next, &mut buf2)?;
            proof {
                assert((sector + 1) * bps == sector * bps + bps) by (nonlinear_arith);
            }
            let first = bps - off;
            let mut i: usize = 0;
            while i < len
                invariant
                    i <= len,
                    len == data@.len(),
                    len <= bps,
                    first == bps - off,
                    off + len > bps,
                    buf@.len() == bps,
                    buf2@.len() == bps,
                    c0.len() >= sector * bps + 2 * bps,
                    forall|j: int| 0 <= j < bps && !(off <= j < off + i) ==> buf@[j] == c0[sector * bps + j],
                    forall|j: int| off <= j < off + i && j < bps ==> buf@[j] == data@[j - off],
                    forall|j: int| 0 <= j < bps && !(j < i - first) ==> buf2@[j] == c0[sector * bps + bps + j],
                    forall|j: int| 0 <= j < i - first ==> buf2@[j] == data@[j + first],
                decreases len - i,
            {
                if i < first {
                    buf[off + i] = data[i];
                } else {
                    buf2[i - first] = data[i];
                }
                i += 1;
            }
            self.disk.write_direct(sector, buf.as_slice())?;
            let ghost c1 = self.disk.contents();
            let r = self.disk.write_direct(next, buf2.as_slice());
            proof {
                if r is Ok {
                    assert(c1 =~= splice(c0, sector * bps, buf@));
                    assert(splice(c1, sector * bps + bps, buf2@) =~= splice(c0, sector * bps + off, data@));
                }
            }
            r
        }
    }
}

proof fn lemma_sector_offset(base: int, o: int, bps: int)
    requires
        bps > 0,
        o >= 0,
    ensures
        (base + o / bps) * bps + o % bps == base * bps + o,
{
    vstd::arithmetic::div_mod::lemma_fundamental_div_mod(o, bps);
    assert((base + o / bps) * bps == base * bps + bps * (o / bps)) by (nonlinear_arith);
}

/// The FAT copies end before the data region, which ends within the volume, and entries of
/// data clusters lie within a copy.
proof fn lemma_fat_regions(b: Seq<u8>)
    requires
        bpb_is_fat12(b),
    ensures
        bpb_reserved_sectors(b) + bpb_number_of_fats(b) * bpb_fat_size(b) <= bpb_total_sectors(b),
        bpb_total_sectors(b) <= 0xFFFF_FFFF,
        fat_room(b) ==> forall|m: int| 0 <= m < bpb_clusters_count(b) ==> #[trigger] entry_in_fat(b, m),
{
    assert(bpb_root_dir_sectors(b) >= 0) by (nonlinear_arith)
        requires bpb_root_entries(b) >= 0, bpb_bytes_per_sector(b) >= 512;
    assert(bpb_total_sectors(b) <= 0xFFFF_FFFF);
}

/// The two bytes of an entry, before and after it is packed with `w`.
proof fn lemma_packed(lo: u8, hi: u8, even: bool, w: int)
    requires
        0 <= w < 4096,
    ensures
        ({
            let p = packed_bytes(lo, hi, if even { 0 } else { 1 }, w);
            &&& even ==> p.0 as int + 256 * (p.1 as int % 16) == w
            &&& even ==> p.1 as int / 16 == hi as int / 16
            &&& !even ==> p.0 as int / 16 + 16 * (p.1 as int) == w
            &&& !even ==> p.0 as int % 16 == lo as int % 16
        }),
{
    let l = lo as int;
    let h = hi as int;
    let p = packed_bytes(lo, hi, if even { 0 } else { 1 }, w);
    assert(w % 4096 == w);
    if even {
        let l2 = w % 256;
        let h2 = (h / 16) * 16 + w / 256;
        assert(0 <= l2 < 256);
        assert(0 <= h2 < 256 && h2 % 16 == w / 256 && h2 / 16 == h / 16) by (nonlinear_arith)
            requires h2 == (h / 16) * 16 + w / 256, 0 <= h < 256, 0 <= w < 4096;
        assert(p.0 as int == l2 && p.1 as int == h2);
        assert(l2 + 256 * (w / 256) == w) by (nonlinear_arith)
            requires l2 == w % 256, 0 <= w;
    } else {
        let l2 = l % 16 + 16 * (w % 16);
        let h2 = w / 16;
        assert(0 <= l2 < 256 && l2 / 16 == w % 16 && l2 % 16 == l % 16) by (nonlinear_arith)
            requires l2 == l % 16 + 16 * (w % 16), 0 <= l < 256, 0 <= w;
        assert(0 <= h2 < 256);
        assert(p.0 as int == l2 && p.1 as int == h2);
        assert(w % 16 + 16 * h2 == w) by (nonlinear_arith)
            requires h2 == w / 16, 0 <= w;
    }
}

/// Entry `m` of copy `k` lies before the end of that copy, which ends within the copies.
proof fn lemma_copy_bounds(b: Seq<u8>, k: int, m: int)
    requires
        bpb_is_fat12(b),
        0 <= k < bpb_number_of_fats(b),
        0 <= m < bpb_clusters_count(b),
        entry_in_fat(b, m),
    ensures
        0 <= fat_offset(b, k, m),
        fat_offset(b, k, m) + 1 < (bpb_reserved_sectors(b) + (k + 1) * bpb_fat_size(b)) * bpb_bytes_per_sector(b),
        (bpb_reserved_sectors(b) + (k + 1) * bpb_fat_size(b)) * bpb_bytes_per_sector(b) <= (
        bpb_reserved_sectors(b) + bpb_number_of_fats(b) * bpb_fat_size(b)) * bpb_bytes_per_sector(b),
        k >= 1 ==> (bpb_reserved_sectors(b) + bpb_fat_size(b)) * bpb_bytes_per_sector(b) <= fat_offset(b, k, m),
{
    lemma_fat_regions(b);
    let rs = bpb_reserved_sectors(b);
    let fs = bpb_fat_size(b);
    let bps = bpb_bytes_per_sector(b);
    let nf = bpb_number_of_fats(b);
    assert(m + m / 2 + 1 < fs * bps);
    assert((rs + (k + 1) * fs) * bps == (rs + k * fs) * bps + fs * bps) by (nonlinear_arith);
    assert((rs + (k + 1) * fs) * bps <= (rs + nf * fs) * bps) by (nonlinear_arith)
        requires k + 1 <= nf, fs >= 0, bps >= 0;
    assert((rs + k * fs) * bps >= 0) by (nonlinear_arith)
        requires rs >= 0, k >= 0, fs >= 0, bps >= 0;
    if k >= 1 {
        assert((rs + fs) * bps <= (rs + k * fs) * bps) by (nonlinear_arith)
            requires k >= 1, fs >= 0, bps >= 0;
    }
}

/// Setting an entry in copies `0..k` keeps the length, and leaves the bytes before the second
/// copy as the first copy alone set them.
proof fn lemma_fat_set_first_copy(b: Seq<u8>, c: Seq<u8>, n: int, v: int, k: nat, p: int)
    requires
        bpb_is_fat12(b),
        fats_within(b, c),
        0 <= n < bpb_clusters_count(b),
        entry_in_fat(b, n),
        k <= bpb_number_of_fats(b),
    ensures
        fat_set(b, c, n, v, k).len() == c.len(),
        1 <= k && 0 <= p < (bpb_reserved_sectors(b) + bpb_fat_size(b)) * bpb_bytes_per_sector(b)
            ==> fat_set(b, c, n, v, k)[p] == fat_set(b, c, n, v, 1)[p],
    decreases k,
{
    if k > 0 {
        lemma_fat_set_first_copy(b, c, n, v, (k - 1) as nat, p);
        lemma_copy_bounds(b, k - 1, n);
    }
}

/// Setting FAT entry `n` to a 12-bit `v` in every copy, then reading entry `n` of the active
/// FAT, gives `v`; entries `n - 1` and `n + 1` read as before.
pub proof fn lemma_fat_entry_round_trip(b: Seq<u8>, c: Seq<u8>, n: int, v: int)
    requires
        bpb_is_fat12(b),
        fat_room(b),
        fats_within(b, c),
        2 <= n < bpb_clusters_count(b),
        0 <= v < 0x1000,
    ensures
        ({
            let c2 = fat_set(b, c, n, v, bpb_number_of_fats(b) as nat);
            &&& fat_entry(b, c2, n) == v
            &&& fat_entry(b, c2, n - 1) == fat_entry(b, c, n - 1)
            &&& n + 1 < bpb_clusters_count(b) ==> fat_entry(b, c2, n + 1) == fat_entry(b, c, n + 1)
        }),
{
    let k = bpb_number_of_fats(b) as nat;
    let c2 = fat_set(b, c, n, v, k);
    let c1 = fat_set(b, c, n, v, 1);
    let bps = bpb_bytes_per_sector(b);
    let fs = bpb_fat_size(b);
    let rs = bpb_reserved_sectors(b);
    lemma_fat_regions(b);
    let pos = fat_offset(b, 0, n);
    assert(pos == rs * bps + n + n / 2);
    let limit = (rs + fs) * bps;
    assert(limit == rs * bps + fs * bps) by (nonlinear_arith)
        requires limit == (rs + fs) * bps;
    lemma_copy_bounds(b, 0, n);
    lemma_fat_set_first_copy(b, c, n, v, k, 0);
    lemma_fat_set_first_copy(b, c, n, v, 1, 0);
    assert(limit <= c.len());
    lemma_copy_bounds(b, 0, n - 1);
    if n + 1 < bpb_clusters_count(b) {
        lemma_copy_bounds(b, 0, n + 1);
    }
    assert(fat_set(b, c, n, v, 0) == c);
    assert forall|p: int| 0 <= p < limit implies #[trigger] c2[p] == c1[p] by {
        lemma_fat_set_first_copy(b, c, n, v, k, p);
    }
    let lo = c[pos];
    let hi = c[pos + 1];
    let w = v % 4096;
    assert(w == v);
    if n % 2 == 0 {
        lemma_packed(lo, hi, true, w);
        assert(n / 2 == (n + 1) / 2);
        assert((n - 1) / 2 == n / 2 - 1);
    } else {
        lemma_packed(lo, hi, false, w);
        assert((n + 1) / 2 == n / 2 + 1);
        assert((n - 1) / 2 == n / 2);
    }
    assert(c1 == c.update(pos, packed_bytes(lo, hi, n, v).0).update(pos + 1, packed_bytes(lo, hi, n, v).1));
}

/// The bytes of a file's fragmented sub-device, read in order, are the bytes of its chain's
/// clusters read directly from the device, concatenated in chain order.
pub proof fn lemma_file_contents(b: Seq<u8>, c: Seq<u8>, ch: Seq<usize>, parts: Seq<(usize, usize)>)
    requires
        parts == coalesce(cluster_ranges(b, ch)),
        ranges_within(cluster_ranges(b, ch), c.len() as int),
    ensures
        frag_contents(parts, c) == frag_contents(cluster_ranges(b, ch), c),
        total_len(parts) == total_len(cluster_ranges(b, ch)),
{
    crate::wrappers::lemma_coalesce_contents(cluster_ranges(b, ch), c);
}

} // verus!
