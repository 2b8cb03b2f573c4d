//! The block device contract: permissions, sector-size capabilities, what a device reports
//! of itself, the errors of every layer, and the `Disk` trait with its request checks.

use vstd::prelude::*;

verus! {

/// Read and write rights of a device, or the mode requested for a sub-device.
#[derive(Debug, Clone, Copy, PartialEq, Eq, Structural)]
pub struct Permissions {
    pub read: bool,
    pub write: bool,
}

impl Permissions {
    pub fn read_only() -> (r: Self)
        ensures
            r.read && !r.write,
    {
        Permissions { read: true, write: false }
    }

    pub fn write_only() -> (r: Self)
        ensures
            !r.read && r.write,
    {
        Permissions { read: false, write: true }
    }

    pub fn read_write() -> (r: Self)
        ensures
            r.read && r.write,
    {
        Permissions { read: true, write: true }
    }
}

/// The sector sizes that a device accepts. A size larger than the device is never accepted.
#[derive(Debug, Clone, PartialEq, Eq)]
pub enum SectorSize {
    /// Every size is accepted.
    Any,
    /// Only the listed sizes are accepted.
    AllOf(Vec<usize>),
    /// Every size but the listed ones is accepted.
    AnyExpected(Vec<usize>),
    /// Sizes `s` with `min <= s < max` for one of the `(min, max)` ranges are accepted.
    InRanges(Vec<(usize, usize)>),
    /// Sizes in none of the `(min, max)` ranges are accepted.
    AnyExpectedRanges(Vec<(usize, usize)>),
}

/// `s` lies in one of the half-open ranges.
pub open spec fn in_some_range(rs: Seq<(usize, usize)>, s: int) -> bool {
    exists|i: int| 0 <= i < rs.len() && (#[trigger] rs[i].0 <= s < rs[i].1)
}

/// The mathematical content of a [`SectorSize`].
pub enum SectorSizeView {
    Any,
    AllOf(Seq<usize>),
    AnyExpected(Seq<usize>),
    InRanges(Seq<(usize, usize)>),
    AnyExpectedRanges(Seq<(usize, usize)>),
}

impl SectorSizeView {
    /// What the capability says of `s`, leaving the device size aside.
    pub open spec fn admits(self, s: int) -> bool {
        match self {
            SectorSizeView::Any => true,
            SectorSizeView::AllOf(l) => 0 <= s <= usize::MAX && l.contains(s as usize),
            SectorSizeView::AnyExpected(l) => !(0 <= s <= usize::MAX && l.contains(s as usize)),
            SectorSizeView::InRanges(rs) => in_some_range(rs, s),
            SectorSizeView::AnyExpectedRanges(rs) => !in_some_range(rs, s),
        }
    }

    /// A sector size `s` is supported on a device of `d` bytes.
    pub open spec fn supports(self, s: int, d: int) -> bool {
        self.admits(s) && s <= d
    }
}

impl View for SectorSize {
    type V = SectorSizeView;

    open spec fn view(&self) -> SectorSizeView {
        match self {
            SectorSize::Any => SectorSizeView::Any,
            SectorSize::AllOf(l) => SectorSizeView::AllOf(l@),
            SectorSize::AnyExpected(l) => SectorSizeView::AnyExpected(l@),
            SectorSize::InRanges(rs) => SectorSizeView::InRanges(rs@),
            SectorSize::AnyExpectedRanges(rs) => SectorSizeView::AnyExpectedRanges(rs@),
        }
    }
}

impl SectorSize {
    /// A copy that Verus knows to equal `self`.
    pub fn duplicate(&self) -> (r: Self)
        ensures
            r@ == self@,
    {
        match self {
            SectorSize::Any => SectorSize::Any,
            SectorSize::AllOf(l) => SectorSize::AllOf(copy_sizes(l)),
            SectorSize::AnyExpected(l) => SectorSize::AnyExpected(copy_sizes(l)),
            SectorSize::InRanges(rs) => SectorSize::InRanges(copy_ranges(rs)),
            SectorSize::AnyExpectedRanges(rs) => SectorSize::AnyExpectedRanges(copy_ranges(rs)),
        }
    }

    /// Checks whether `sector_size` is supported on a device of `disk_size` bytes.
    pub fn is_supported(&self, sector_size: usize, disk_size: usize) -> (r: bool)
        ensures
            r == self@.supports(sector_size as int, disk_size as int),
    {
        let admitted = match self {
            SectorSize::Any => true,
            SectorSize::AllOf(l) => list_contains(l, sector_size),
            SectorSize::AnyExpected(l) => !list_contains(l, sector_size),
            SectorSize::InRanges(rs) => ranges_contain(rs, sector_size),
            SectorSize::AnyExpectedRanges(rs) => !ranges_contain(rs, sector_size),
        };
        admitted && sector_size <= disk_size
    }

    /// The smallest supported sector size that is at least `n`, on a device of `disk_size`
    /// bytes.
    pub fn minimal_ge(&self, n: usize, disk_size: usize) -> (r: Option<usize>)
        ensures
            r matches Some(s) ==> n <= s && self@.supports(s as int, disk_size as int) && forall|
                t: int,
            | n <= t < s ==> !self@.supports(t, disk_size as int),
            r is None ==> forall|t: int| n <= t ==> !self@.supports(t, disk_size as int),
    {
        if n > disk_size {
            return None;
        }
        match self {
            SectorSize::Any => Some(n),
            SectorSize::AllOf(l) => {
                let mut best: Option<usize> = None;
                let mut i: usize = 0;
                while i < l.len()
                    invariant
                        i <= l@.len(),
                        n <= disk_size,
                        best matches Some(b) ==> n <= b <= disk_size && l@.contains(b),
                        forall|j: int|
                            0 <= j < i && n <= #[trigger] l@[j] <= disk_size ==> (best matches Some(
                                b,
                            ) && b <= l@[j]),
                    decreases l@.len() - i,
                {
                    let v = l[i];
                    if n <= v && v <= disk_size {
                        match best {
                            Some(b) => {
                                if v < b {
                                    best = Some(v);
                                }
                            },
                            None => {
                                best = Some(v);
                            },
                        }
                    }
                    i += 1;
                }
                proof {
                    if best is None {
                        assert forall|t: int| n <= t implies !self@.supports(t, disk_size as int) by {
                            if self@.supports(t, disk_size as int) {
                                let j = choose|j: int| 0 <= j < l@.len() && l@[j] == t as usize;
                                assert(n <= l@[j] <= disk_size);
                            }
                        }
                    } else {
                        let b = best->Some_0;
                        assert forall|t: int| n <= t < b implies !self@.supports(t, disk_size as int) by {
                            if self@.supports(t, disk_size as int) {
                                let j = choose|j: int| 0 <= j < l@.len() && l@[j] == t as usize;
                                assert(n <= l@[j] <= disk_size);
                            }
                        }
                    }
                }
                best
            },
            SectorSize::AnyExpected(l) => {
                let mut c: usize = n;
                loop
                    invariant
                        n <= c <= disk_size,
                        self@ == SectorSizeView::AnyExpected(l@),
                        forall|t: int| n <= t < c ==> !self@.admits(t),
                    decreases disk_size - c,
                {
                    if !list_contains(l, c) {
                        return Some(c);
                    }
                    if c == disk_size {
                        return None;
                    }
                    c += 1;
                }
            },
            SectorSize::InRanges(rs) => {
                let mut best: Option<usize> = None;
                let mut i: usize = 0;
                while i < rs.len()
                    invariant
                        i <= rs@.len(),
                        n <= disk_size,
                        best matches Some(b) ==> n <= b <= disk_size && in_some_range(rs@, b as int),
                        forall|t: int|
                            n <= t <= disk_size && #[trigger] in_some_range(
                                rs@.subrange(0, i as int),
                                t,
                            ) ==> (best matches Some(b) && b <= t),
                    decreases rs@.len() - i,
                {
                    let r = rs[i];
                    let lo = if r.0 < n {
                        n
                    } else {
                        r.0
                    };
                    if lo < r.1 && lo <= disk_size {
                        assert(rs@[i as int].0 <= lo < rs@[i as int].1);
                        match best {
                            Some(b) => {
                                if lo < b {
                                    best = Some(lo);
                                }
                            },
                            None => {
                                best = Some(lo);
                            },
                        }
                    }
                    proof {
                        let pre = rs@.subrange(0, i as int);
                        let pre1 = rs@.subrange(0, i + 1);
                        assert forall|t: int|
                            n <= t <= disk_size && #[trigger] in_some_range(pre1, t) implies (best matches Some(
                                b,
                            ) && b <= t) by {
                            let j = choose|j: int| 0 <= j < pre1.len() && (#[trigger] pre1[j].0 <= t < pre1[j].1);
                            if j < i {
                                assert(pre[j] == pre1[j]);
                                assert(in_some_range(pre, t));
                            }
                        }
                    }
                    i += 1;
                }
                assert(rs@.subrange(0, rs@.len() as int) =~= rs@);
                best
            },
            SectorSize::AnyExpectedRanges(rs) => {
                let mut c: usize = n;
                loop
                    invariant
                        n <= c,
                        n <= disk_size,
                        self@ == SectorSizeView::AnyExpectedRanges(rs@),
                        forall|t: int| n <= t < c ==> in_some_range(rs@, t),
                    decreases usize::MAX - c,
                {
                    match find_range(rs, c) {
                        None => {
                            if c <= disk_size {
                                return Some(c);
                            } else {
                                return None;
                            }
                        },
                        Some(j) => {
                            let next = rs[j].1;
                            assert forall|t: int| n <= t < next implies in_some_range(rs@, t) by {
                                if t >= c {
                                    assert(rs@[j as int].0 <= t < rs@[j as int].1);
                                }
                            }
                            c = next;
                        },
                    }
                }
            },
        }
    }
}

/// What a device reports of itself.
#[derive(Debug, Clone, PartialEq, Eq)]
pub struct DiskInfos {
    pub sector_size: SectorSize,
    /// The device size in bytes.
    pub disk_size: usize,
    pub permissions: Permissions,
}

/// The mathematical content of a [`DiskInfos`].
pub struct DiskInfosView {
    pub sector_size: SectorSizeView,
    pub disk_size: nat,
    pub permissions: Permissions,
}

impl View for DiskInfos {
    type V = DiskInfosView;

    open spec fn view(&self) -> DiskInfosView {
        DiskInfosView {
            sector_size: self.sector_size@,
            disk_size: self.disk_size as nat,
            permissions: self.permissions,
        }
    }
}

impl DiskInfos {
    /// A copy that Verus knows to equal `self`.
    pub fn duplicate(&self) -> (r: Self)
        ensures
            r@ == self@,
    {
        DiskInfos {
            sector_size: self.sector_size.duplicate(),
            disk_size: self.disk_size,
            permissions: self.permissions,
        }
    }
}

/// Every way a device operation can fail.
#[derive(Debug, Clone, PartialEq, Eq)]
pub enum DiskErr {
    /// The buffer size `found` is not a supported sector size, or a sub-device starting at byte
    /// `start` is not aligned on it.
    InvalidSectorSize { found: usize, supported: SectorSize, start: usize },
    /// The sector index `found` lies beyond the device; `max` is the number of whole sectors of
    /// that size.
    InvalidSectorIndex { found: usize, max: usize },
    /// The device lacks the permission that the operation needs.
    InvalidPermission { disk_permissions: Permissions },
    /// The device is gone.
    UnreachableDisk,
    /// A range reaches past the end of the device.
    InvalidDiskSize,
    /// The range is borrowed in a conflicting mode.
    Busy,
    /// No sector size that the structure needs is supported.
    UnsupportedDiskSectorSize,
    /// A partition slot outside `0..4`.
    InvalidPartitionIndex,
    /// The requested partition space is taken.
    SpaceAlreadyInUse,
    /// An entry index beyond its table.
    IndexOutOfRange,
    /// A transport failure, or a corrupt on-disk structure.
    IOErr,
}

/// The permission that a read (`write == false`) or a write needs.
pub open spec fn permits(p: Permissions, write: bool) -> bool {
    if write {
        p.write
    } else {
        p.read
    }
}

/// A sector request of `len` bytes at index `sector` is acceptable on a device.
pub open spec fn request_ok(info: DiskInfosView, sector: int, len: int, write: bool) -> bool {
    &&& permits(info.permissions, write)
    &&& info.sector_size.supports(len, info.disk_size as int)
    &&& sector * len + len <= info.disk_size
}

/// The `len` bytes of sector `sector`.
pub open spec fn sector_bytes(contents: Seq<u8>, sector: int, len: int) -> Seq<u8> {
    contents.subrange(sector * len, sector * len + len)
}

/// `contents` with `data` written at byte `offset`.
pub open spec fn splice(contents: Seq<u8>, offset: int, data: Seq<u8>) -> Seq<u8> {
    contents.subrange(0, offset) + data + contents.subrange(offset + data.len(), contents.len() as int)
}

/// A sector-addressed storage device. Each implementation validates every request itself: a
/// caller may submit any value.
pub trait Disk {
    /// What the device reports of itself.
    spec fn infos(&self) -> DiskInfosView;

    /// The bytes the device holds.
    spec fn contents(&self) -> Seq<u8>;

    /// The device's own consistency.
    spec fn wf(&self) -> bool;

    /// Every request that passes the checks of `request_ok` and that the device does not
    /// refuse succeeds, and the device always reports its infos.
    spec fn reliable(&self) -> bool;

    /// The device turns down a request of `len` bytes at sector `sector` on grounds of its own
    /// (a borrow in the way, an alignment it needs), before it touches anything.
    spec fn refuses(&self, sector: int, len: int, write: bool) -> bool;

    /// `e` is the error a refused request gives.
    spec fn refusal(&self, sector: int, len: int, write: bool, e: DiskErr) -> bool;

    /// A consistent device holds as many bytes as it reports, which `usize` can count.
    proof fn lemma_contents_len(&self)
        requires
            self.wf(),
        ensures
            self.contents().len() == self.infos().disk_size,
            self.infos().disk_size <= usize::MAX,
    ;

    /// Reads sector `sector`; the buffer length is the sector size. A request that fails the
    /// checks, or that the device refuses, leaves the buffer as it was.
    fn read_sector(&self, sector: usize, buf: &mut Vec<u8>) -> (r: Result<(), DiskErr>)
        requires
            self.wf(),
        ensures
            final(buf)@.len() == old(buf)@.len(),
            r is Ok ==> request_ok(self.infos(), sector as int, old(buf)@.len() as int, false)
                && !self.refuses(sector as int, old(buf)@.len() as int, false) && final(buf)@
                == sector_bytes(self.contents(), sector as int, old(buf)@.len() as int),
            !request_ok(self.infos(), sector as int, old(buf)@.len() as int, false) || self.refuses(
                sector as int,
                old(buf)@.len() as int,
                false,
            ) ==> r is Err && final(buf)@ == old(buf)@,
            self.refuses(sector as int, old(buf)@.len() as int, false) ==> self.refusal(
                sector as int,
                old(buf)@.len() as int,
                false,
                r->Err_0,
            ),
            self.reliable() && request_ok(self.infos(), sector as int, old(buf)@.len() as int, false)
                && !self.refuses(sector as int, old(buf)@.len() as int, false) ==> r is Ok,
    ;

    /// Writes sector `sector`; the buffer length is the sector size. A request that fails the
    /// checks, or that the device refuses, leaves the device as it was.
    fn write_sector(&mut self, sector: usize, buf: &[u8]) -> (r: Result<(), DiskErr>)
        requires
            old(self).wf(),
        ensures
            final(self).wf(),
            final(self).infos() == old(self).infos(),
            final(self).reliable() == old(self).reliable(),
            forall|s: int, l: int, w: bool| #[trigger] final(self).refuses(s, l, w) == old(self).refuses(
                s,
                l,
                w,
            ),
            r is Ok ==> request_ok(old(self).infos(), sector as int, buf@.len() as int, true)
                && !old(self).refuses(sector as int, buf@.len() as int, true) && final(self).contents()
                == splice(old(self).contents(), sector * buf@.len(), buf@),
            !request_ok(old(self).infos(), sector as int, buf@.len() as int, true) || old(self).refuses(
                sector as int,
                buf@.len() as int,
                true,
            ) ==> r is Err && final(self).contents() == old(self).contents(),
            old(self).refuses(sector as int, buf@.len() as int, true) ==> old(self).refusal(
                sector as int,
                buf@.len() as int,
                true,
                r->Err_0,
            ),
            old(self).reliable() && request_ok(old(self).infos(), sector as int, buf@.len() as int, true)
                && !old(self).refuses(sector as int, buf@.len() as int, true) ==> r is Ok,
    ;

    /// Reports the device's capability, size and permissions.
    fn disk_infos(&self) -> (r: Result<DiskInfos, DiskErr>)
        requires
            self.wf(),
        ensures
            r matches Ok(i) ==> i@ == self.infos(),
            self.reliable() ==> r is Ok,
    ;
}

/// The device refuses no request on grounds of its own.
pub open spec fn refuses_nothing<D: Disk>(d: &D) -> bool {
    forall|sector: int, len: int, write: bool| !#[trigger] d.refuses(sector, len, write)
}

/// Validates a sector request against what a device reports, and returns the byte offset of
/// the sector. Permissions are checked first, then the sector size, then the index.
pub fn check_request(info: &DiskInfos, sector: usize, len: usize, write: bool) -> (r: Result<
    usize,
    DiskErr,
>)
    ensures
        r matches Ok(off) ==> request_ok(info@, sector as int, len as int, write) && off == sector
            * len,
        request_ok(info@, sector as int, len as int, write) ==> r is Ok,
        !permits(info.permissions, write) ==> r == Err::<usize, DiskErr>(
            DiskErr::InvalidPermission { disk_permissions: info.permissions },
        ),
        permits(info.permissions, write) && !info.sector_size@.supports(
            len as int,
            info.disk_size as int,
        ) ==> (r matches Err(DiskErr::InvalidSectorSize { found, supported, start }) && found
            == len && supported@ == info.sector_size@ && start == 0),
        permits(info.permissions, write) && info.sector_size@.supports(
            len as int,
            info.disk_size as int,
        ) && sector * len + len > info.disk_size ==> r == Err::<usize, DiskErr>(
            DiskErr::InvalidSectorIndex {
                found: sector,
                max: if len == 0 {
                    0
                } else {
                    (info.disk_size / len) as usize
                },
            },
        ),
{
    let allowed = if write {
        info.permissions.write
    } else {
        info.permissions.read
    };
    if !allowed {
        return Err(DiskErr::InvalidPermission { disk_permissions: info.permissions });
    }
    if !info.sector_size.is_supported(len, info.disk_size) {
        return Err(
            DiskErr::InvalidSectorSize { found: len, supported: info.sector_size.duplicate(), start: 0 },
        );
    }
    let max = if len == 0 {
        0
    } else {
        info.disk_size / len
    };
    match sector.checked_mul(len) {
        Some(off) => {
            if off <= info.disk_size - len {
                Ok(off)
            } else {
                Err(DiskErr::InvalidSectorIndex { found: sector, max })
            }
        },
        None => Err(DiskErr::InvalidSectorIndex { found: sector, max }),
    }
}

fn copy_sizes(l: &Vec<usize>) -> (r: Vec<usize>)
    ensures
        r@ == l@,
{
    let mut r: Vec<usize> = Vec::new();
    let mut i: usize = 0;
    while i < l.len()
        invariant
            i <= l@.len(),
            r@ == l@.subrange(0, i as int),
        decreases l@.len() - i,
    {
        r.push(l[i]);
        i += 1;
    }
    assert(r@ =~= l@);
    r
}

fn copy_ranges(l: &Vec<(usize, usize)>) -> (r: Vec<(usize, usize)>)
    ensures
        r@ == l@,
{
    let mut r: Vec<(usize, usize)> = Vec::new();
    let mut i: usize = 0;
    while i < l.len()
        invariant
            i <= l@.len(),
            r@ == l@.subrange(0, i as int),
        decreases l@.len() - i,
    {
        r.push(l[i]);
        i += 1;
    }
    assert(r@ =~= l@);
    r
}

fn list_contains(l: &Vec<usize>, s: usize) -> (r: bool)
    ensures
        r == l@.contains(s),
{
    let mut i: usize = 0;
    while i < l.len()
        invariant
            i <= l@.len(),
            forall|j: int| 0 <= j < i ==> l@[j] != s,
        decreases l@.len() - i,
    {
        if l[i] == s {
            return true;
        }
        i += 1;
    }
    false
}

fn ranges_contain(rs: &Vec<(usize, usize)>, s: usize) -> (r: bool)
    ensures
        r == in_some_range(rs@, s as int),
{
    let mut i: usize = 0;
    while i < rs.len()
        invariant
            i <= rs@.len(),
            forall|j: int| 0 <= j < i ==> !(#[trigger] rs@[j].0 <= s < rs@[j].1),
        decreases rs@.len() - i,
    {
        if rs[i].0 <= s && s < rs[i].1 {
            return true;
        }
        i += 1;
    }
    false
}

fn find_range(rs: &Vec<(usize, usize)>, s: usize) -> (r: Option<usize>)
    ensures
        r matches Some(i) ==> i < rs@.len() && rs@[i as int].0 <= s < rs@[i as int].1,
        r is None ==> !in_some_range(rs@, s as int),
{
    let mut i: usize = 0;
    while i < rs.len()
        invariant
            i <= rs@.len(),
            forall|j: int| 0 <= j < i ==> !(#[trigger] rs@[j].0 <= s < rs@[j].1),
        decreases rs@.len() - i,
    {
        if rs[i].0 <= s && s < rs[i].1 {
            return Some(i);
        }
        i += 1;
    }
    None
}

/// `s` is the smallest sector size of at least `n` that `cap` supports on a device of `d` bytes.
pub open spec fn is_smallest_ge(cap: SectorSizeView, n: int, d: int, s: int) -> bool {
    &&& n <= s
    &&& cap.supports(s, d)
    &&& forall|t: int| n <= t < s ==> !cap.supports(t, d)
}

/// No sector size of at least `n` is supported on a device of `d` bytes.
pub open spec fn none_ge(cap: SectorSizeView, n: int, d: int) -> bool {
    forall|t: int| n <= t ==> !cap.supports(t, d)
}

/// There is one smallest supported size of at least 512 bytes.
pub proof fn lemma_smallest_unique(cap: SectorSizeView, d: int, s: int)
    requires
        is_smallest_ge(cap, 512, d, s),
    ensures
        forall|t: int| #[trigger] is_smallest_ge(cap, 512, d, t) ==> t == s,
{
    assert forall|t: int| #[trigger] is_smallest_ge(cap, 512, d, t) implies t == s by {
        if t < s {
            assert(!cap.supports(t, d));
        } else if s < t {
            assert(!cap.supports(s, d));
        }
    }
}

/// Widening a device never withdraws support for a sector size, and a sector size larger than
/// the device is never supported.
pub proof fn lemma_supports_monotone(cap: SectorSizeView, s: int, d1: int, d2: int)
    requires
        d1 <= d2,
    ensures
        cap.supports(s, d1) ==> cap.supports(s, d2),
        s > d1 ==> !cap.supports(s, d1),
{
}

} // verus!
