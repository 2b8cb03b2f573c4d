//! The borrow tracker: it owns a device and lends out byte ranges of it, for reading or for
//! writing, as contiguous or fragmented sub-devices, never letting a writer overlap another
//! borrower.

use vstd::prelude::*;
use crate::disk::{
    lemma_supports_monotone, permits, refuses_nothing, request_ok, sector_bytes, splice, Disk, DiskErr,
    DiskInfos, DiskInfosView, Permissions, SectorSize, SectorSizeView,
};

verus! {

/// The half-open ranges `[r.0, r.1)` and `[start, end)` overlap.
pub open spec fn overlaps(r: (usize, usize), start: int, end: int) -> bool {
    r.0 < end && start < r.1
}

/// Some range of `rs` overlaps `[start, end)`.
pub open spec fn any_overlap(rs: Seq<(usize, usize)>, start: int, end: int) -> bool {
    exists|i: int| 0 <= i < rs.len() && #[trigger] overlaps(rs[i], start, end)
}

/// The writer ranges are pairwise disjoint, and each is disjoint from every reader range.
pub open spec fn borrows_consistent(readers: Seq<(usize, usize)>, writers: Seq<(usize, usize)>) -> bool {
    &&& forall|i: int, j: int|
        0 <= i < writers.len() && 0 <= j < writers.len() && i != j ==> !overlaps(
            #[trigger] writers[i],
            writers[j].0 as int,
            #[trigger] writers[j].1 as int,
        )
    &&& forall|i: int, j: int|
        0 <= i < writers.len() && 0 <= j < readers.len() ==> !overlaps(
            #[trigger] writers[i],
            readers[j].0 as int,
            #[trigger] readers[j].1 as int,
        )
}

/// Every range ends within a device of `size` bytes and does not end before it starts.
pub open spec fn ranges_within(rs: Seq<(usize, usize)>, size: int) -> bool {
    forall|i: int| #![trigger rs[i]] 0 <= i < rs.len() ==> rs[i].0 <= rs[i].1 && rs[i].1 <= size
}

/// A request in `mode` for `[start, end)` conflicts with the borrows: a writer overlaps, or the
/// mode includes write and a reader overlaps.
pub open spec fn conflicts(
    readers: Seq<(usize, usize)>,
    writers: Seq<(usize, usize)>,
    start: int,
    end: int,
    mode: Permissions,
) -> bool {
    any_overlap(writers, start, end) || (mode.write && any_overlap(readers, start, end))
}

/// `k` is the first position of `x` in `s`.
pub open spec fn is_first_index(s: Seq<(usize, usize)>, x: (usize, usize), k: int) -> bool {
    0 <= k < s.len() && s[k] == x && forall|j: int| 0 <= j < k ==> s[j] != x
}

/// A sector request of `len` bytes at `sector` meets a borrow in the way: a writer overlaps it,
/// or, for a write, a reader does.
pub open spec fn tracker_refuses(
    readers: Seq<(usize, usize)>,
    writers: Seq<(usize, usize)>,
    sector: int,
    len: int,
    write: bool,
) -> bool {
    &&& sector * len + len <= usize::MAX
    &&& (any_overlap(writers, sector * len, sector * len + len) || (write && any_overlap(
        readers,
        sector * len,
        sector * len + len,
    )))
}

/// No range of `rs` overlaps `[a, b)` when none overlaps a wider `[0, limit)`.
pub proof fn lemma_no_overlap_within(rs: Seq<(usize, usize)>, a: int, b: int, limit: int)
    requires
        0 <= a <= b <= limit,
        !any_overlap(rs, 0, limit),
    ensures
        !any_overlap(rs, a, b),
{
    assert forall|i: int| 0 <= i < rs.len() implies !#[trigger] overlaps(rs[i], a, b) by {
        assert(!overlaps(rs[i], 0, limit));
    }
}

/// `s` with its first occurrence of `x` taken out, if it holds one.
pub open spec fn remove_one(s: Seq<(usize, usize)>, x: (usize, usize)) -> Seq<(usize, usize)> {
    if s.contains(x) {
        s.remove(choose|k: int| is_first_index(s, x, k))
    } else {
        s
    }
}

/// `s` with one occurrence of each of `parts` taken out, in order.
pub open spec fn remove_each(s: Seq<(usize, usize)>, parts: Seq<(usize, usize)>) -> Seq<(usize, usize)>
    decreases parts.len(),
{
    if parts.len() == 0 {
        s
    } else {
        remove_one(remove_each(s, parts.drop_last()), parts.last())
    }
}

proof fn lemma_first_index_unique(s: Seq<(usize, usize)>, x: (usize, usize), k: int)
    requires
        is_first_index(s, x, k),
    ensures
        s.contains(x),
        remove_one(s, x) == s.remove(k),
{
    let c = choose|c: int| is_first_index(s, x, c);
    assert(is_first_index(s, x, c));
    if c < k {
        assert(s[c] != x);
    } else if k < c {
        assert(s[k] != x);
    }
}

/// Owns a device and records which byte ranges of it are lent out, for reading or for
/// writing. A holder whose mode includes write is recorded as a writer only.
pub struct DiskWrapper<D: Disk> {
    disk: D,
    infos: DiskInfos,
    r_borrows: Vec<(usize, usize)>,
    w_borrows: Vec<(usize, usize)>,
}

/// A contiguous byte range `[start, end)` of a tracker's device, lent out in `permissions`.
pub struct SubDisk {
    start: usize,
    end: usize,
    sector_size: SectorSize,
    permissions: Permissions,
}

impl SubDisk {
    pub closed spec fn spec_start(&self) -> usize {
        self.start
    }

    pub closed spec fn spec_end(&self) -> usize {
        self.end
    }

    pub closed spec fn spec_permissions(&self) -> Permissions {
        self.permissions
    }

    pub closed spec fn spec_sector_size(&self) -> SectorSizeView {
        self.sector_size@
    }

    pub fn start(&self) -> (r: usize)
        ensures
            r == self.spec_start(),
    {
        self.start
    }

    pub fn end(&self) -> (r: usize)
        ensures
            r == self.spec_end(),
    {
        self.end
    }

    pub fn permissions(&self) -> (r: Permissions)
        ensures
            r == self.spec_permissions(),
    {
        self.permissions
    }

    /// What the sub-device reports of itself: the parent's capability, its own length.
    pub fn disk_infos(&self) -> (r: DiskInfos)
        requires
            self.spec_start() <= self.spec_end(),
        ensures
            r@ == (DiskInfosView {
                sector_size: self.spec_sector_size(),
                disk_size: (self.spec_end() - self.spec_start()) as nat,
                permissions: self.spec_permissions(),
            }),
    {
        DiskInfos {
            sector_size: self.sector_size.duplicate(),
            disk_size: self.end - self.start,
            permissions: self.permissions,
        }
    }
}

/// The list in which a holder in `mode` is recorded, if any: writers for a mode that includes
/// write, readers for a read-only mode.
pub open spec fn recorded_in(
    readers: Seq<(usize, usize)>,
    writers: Seq<(usize, usize)>,
    r: (usize, usize),
    mode: Permissions,
) -> bool {
    if mode.write {
        writers.contains(r)
    } else if mode.read {
        readers.contains(r)
    } else {
        true
    }
}

impl<D: Disk> DiskWrapper<D> {
    /// The device the tracker owns.
    pub closed spec fn inner(&self) -> D {
        self.disk
    }

    /// Ranges lent out for reading only.
    pub closed spec fn readers(&self) -> Seq<(usize, usize)> {
        self.r_borrows@
    }

    /// Ranges lent out for writing.
    pub closed spec fn writers(&self) -> Seq<(usize, usize)> {
        self.w_borrows@
    }

    /// Takes ownership of `disk`, with nothing lent out. Fails with the device's own error when
    /// the device cannot report its infos.
    pub fn new(disk: D) -> (r: Result<Self, DiskErr>)
        requires
            disk.wf(),
        ensures
            disk.reliable() ==> r is Ok,
            r matches Ok(w) ==> w.reliable() == disk.reliable(),
            r matches Ok(w) ==> w.wf() && w.inner() == disk && w.infos() == disk.infos()
                && w.contents() == disk.contents() && w.readers() == Seq::<
                (usize, usize),
            >::empty() && w.writers() == Seq::<(usize, usize)>::empty(),
    {
        let infos = disk.disk_infos()?;
        Ok(DiskWrapper { disk, infos, r_borrows: Vec::new(), w_borrows: Vec::new() })
    }

    /// The size in bytes of the device.
    pub fn size(&self) -> (r: usize)
        requires
            self.wf(),
        ensures
            r == self.infos().disk_size,
    {
        self.infos.disk_size
    }

    /// The device the tracker owns.
    pub fn device(&self) -> (r: &D)
        ensures
            *r == self.inner(),
    {
        &self.disk
    }

    /// Gives the device back. Whatever sub-devices are left become unreachable.
    pub fn into_inner(self) -> (r: D)
        requires
            self.wf(),
        ensures
            r == self.inner(),
            r.wf(),
            r.contents() == self.contents(),
            r.infos() == self.infos(),
            r.reliable() == self.reliable(),
    {
        self.disk
    }

    /// Reads sector `sector` of the device directly. Fails with `Busy` where a writer range
    /// overlaps the sector.
    pub fn read_direct(&self, sector: usize, buf: &mut Vec<u8>) -> (r: Result<(), DiskErr>)
        requires
            self.wf(),
        ensures
            final(buf)@.len() == old(buf)@.len(),
            r is Ok ==> request_ok(self.infos(), sector as int, old(buf)@.len() as int, false)
                && final(buf)@ == sector_bytes(self.contents(), sector as int, old(buf)@.len() as int),
            !request_ok(self.infos(), sector as int, old(buf)@.len() as int, false) || self.refuses(
                sector as int,
                old(buf)@.len() as int,
                false,
            ) ==> r is Err && final(buf)@ == old(buf)@,
            tracker_refuses(self.readers(), self.writers(), sector as int, old(buf)@.len() as int, false)
                ==> r == Err::<(), DiskErr>(DiskErr::Busy),
            self.refuses(sector as int, old(buf)@.len() as int, false) == (tracker_refuses(
                self.readers(),
                self.writers(),
                sector as int,
                old(buf)@.len() as int,
                false,
            ) || self.inner().refuses(sector as int, old(buf)@.len() as int, false)),
            self.refuses(sector as int, old(buf)@.len() as int, false) ==> self.refusal(
                sector as int,
                old(buf)@.len() as int,
                false,
                r->Err_0,
            ),
            self.inner().reliable() && request_ok(self.infos(), sector as int, old(buf)@.len() as int, false)
                && !self.refuses(sector as int, old(buf)@.len() as int, false) ==> r is Ok,
    {
        let len = buf.len();
        if let Some(start) = sector.checked_mul(len) {
            if let Some(end) = start.checked_add(len) {
                if self.is_w_borrowed(start, end) {
                    return Err(DiskErr::Busy);
                }
            }
        }
        self.disk.read_sector(sector, buf)
    }

    /// Writes sector `sector` of the device directly. Fails with `Busy` where a reader or a
    /// writer range overlaps the sector.
    pub fn write_direct(&mut self, sector: usize, buf: &[u8]) -> (r: Result<(), DiskErr>)
        requires
            old(self).wf(),
        ensures
            final(self).wf(),
            final(self).infos() == old(self).infos(),
            final(self).readers() == old(self).readers(),
            final(self).writers() == old(self).writers(),
            final(self).inner().reliable() == old(self).inner().reliable(),
            forall|s: int, l: int, w: bool| #[trigger] final(self).inner().refuses(s, l, w)
                == old(self).inner().refuses(s, l, w),
            r is Ok ==> request_ok(old(self).infos(), sector as int, buf@.len() as int, true)
                && final(self).contents() == splice(old(self).contents(), sector * buf@.len(), buf@),
            !request_ok(old(self).infos(), sector as int, buf@.len() as int, true) || old(self).refuses(
                sector as int,
                buf@.len() as int,
                true,
            ) ==> r is Err && final(self).contents() == old(self).contents(),
            tracker_refuses(old(self).readers(), old(self).writers(), sector as int, buf@.len() as int, true)
                ==> r == Err::<(), DiskErr>(DiskErr::Busy),
            old(self).refuses(sector as int, buf@.len() as int, true) == (tracker_refuses(
                old(self).readers(),
                old(self).writers(),
                sector as int,
                buf@.len() as int,
                true,
            ) || old(self).inner().refuses(sector as int, buf@.len() as int, true)),
            old(self).refuses(sector as int, buf@.len() as int, true) ==> old(self).refusal(
                sector as int,
                buf@.len() as int,
                true,
                r->Err_0,
            ),
            old(self).inner().reliable() && request_ok(old(self).infos(), sector as int, buf@.len() as int, true)
                && !old(self).refuses(sector as int, buf@.len() as int, true) ==> r is Ok,
    {
        let len = buf.len();
        if let Some(start) = sector.checked_mul(len) {
            if let Some(end) = start.checked_add(len) {
                if self.is_w_borrowed(start, end) || self.is_r_borrowed(start, end) {
                    return Err(DiskErr::Busy);
                }
            }
        }
        self.disk.write_sector(sector, buf)
    }

    /// How the tracker's own predicates read: it is as reliable as its device, and it refuses
    /// what overlaps a borrow in the way, besides what its device refuses.
    pub proof fn lemma_tracker_spec(&self)
        ensures
            self.reliable() == self.inner().reliable(),
            forall|s: int, l: int, w: bool|
                #[trigger] self.refuses(s, l, w) == (tracker_refuses(self.readers(), self.writers(), s, l, w)
                    || self.inner().refuses(s, l, w)),
            forall|s: int, l: int, w: bool, e: DiskErr|
                tracker_refuses(self.readers(), self.writers(), s, l, w) ==> (#[trigger] self.refusal(
                    s,
                    l,
                    w,
                    e,
                ) <==> e == DiskErr::Busy),
    {
    }

    /// Some reader range overlaps `[start, end)`.
    pub fn is_r_borrowed(&self, start: usize, end: usize) -> (r: bool)
        ensures
            r == any_overlap(self.readers(), start as int, end as int),
    {
        ranges_overlap(&self.r_borrows, start, end)
    }

    /// Some writer range overlaps `[start, end)`.
    pub fn is_w_borrowed(&self, start: usize, end: usize) -> (r: bool)
        ensures
            r == any_overlap(self.writers(), start as int, end as int),
    {
        ranges_overlap(&self.w_borrows, start, end)
    }

    /// Lends out `[start, end)` in `permissions`. Fails with `Busy` when the request conflicts
    /// with what is lent out, then with `InvalidDiskSize` when the range does not lie within
    /// the device.
    pub fn subdisk(&mut self, start: usize, end: usize, permissions: Permissions) -> (r: Result<
        SubDisk,
        DiskErr,
    >)
        requires
            old(self).wf(),
        ensures
            final(self).wf(),
            final(self).inner() == old(self).inner(),
            final(self).infos() == old(self).infos(),
            final(self).contents() == old(self).contents(),
            conflicts(old(self).readers(), old(self).writers(), start as int, end as int, permissions)
                ==> r == Err::<SubDisk, DiskErr>(DiskErr::Busy),
            !conflicts(old(self).readers(), old(self).writers(), start as int, end as int, permissions)
                && start <= end <= old(self).infos().disk_size ==> r is Ok,
            !conflicts(old(self).readers(), old(self).writers(), start as int, end as int, permissions)
                && !(start <= end <= old(self).infos().disk_size) ==> r == Err::<
                SubDisk,
                DiskErr,
            >(DiskErr::InvalidDiskSize),
            r is Err ==> final(self).readers() == old(self).readers() && final(self).writers()
                == old(self).writers(),
            r matches Ok(sub) ==> {
                &&& !conflicts(old(self).readers(), old(self).writers(), start as int, end as int, permissions)
                &&& start <= end <= old(self).infos().disk_size
                &&& sub.spec_start() == start && sub.spec_end() == end
                &&& sub.spec_permissions() == permissions
                &&& sub.spec_sector_size() == old(self).infos().sector_size
                &&& final(self).writers() == if permissions.write {
                    old(self).writers().push((start, end))
                } else {
                    old(self).writers()
                }
                &&& final(self).readers() == if !permissions.write && permissions.read {
                    old(self).readers().push((start, end))
                } else {
                    old(self).readers()
                }
            },
    {
        if self.is_w_borrowed(start, end) || (permissions.write && self.is_r_borrowed(start, end)) {
            return Err(DiskErr::Busy);
        }
        if start > end || end > self.infos.disk_size {
            return Err(DiskErr::InvalidDiskSize);
        }
        proof {
            self.lemma_register(start, end, permissions);
        }
        if permissions.write {
            self.w_borrows.push((start, end));
        } else if permissions.read {
            self.r_borrows.push((start, end));
        }
        Ok(SubDisk { start, end, sector_size: self.infos.sector_size.duplicate(), permissions })
    }

    proof fn lemma_recorded_within(&self, parts: Seq<(usize, usize)>, mode: Permissions)
        requires
            self.wf(),
            parts_recorded(self.readers(), self.writers(), parts, mode),
            mode.write || mode.read,
        ensures
            ranges_within(parts, self.infos.disk_size as int),
    {
        let size = self.infos.disk_size as int;
        assert forall|i: int| #![trigger parts[i]] 0 <= i < parts.len() implies parts[i].0
            <= parts[i].1 && parts[i].1 <= size by {
            assert(recorded_in(self.readers(), self.writers(), parts[i], mode));
            let rs = if mode.write {
                self.w_borrows@
            } else {
                self.r_borrows@
            };
            assert(rs.contains(parts[i]));
            let k = choose|k: int| 0 <= k < rs.len() && rs[k] == parts[i];
            assert(ranges_within(rs, size));
            assert(rs[k] == parts[i]);
        }
    }

    proof fn lemma_register(&self, start: usize, end: usize, mode: Permissions)
        requires
            self.wf(),
            !conflicts(self.readers(), self.writers(), start as int, end as int, mode),
            start <= end <= self.infos.disk_size,
        ensures
            mode.write ==> borrows_consistent(self.readers(), self.writers().push((start, end))),
            mode.write ==> ranges_within(self.writers().push((start, end)), self.infos.disk_size as int),
            !mode.write ==> borrows_consistent(self.readers().push((start, end)), self.writers()),
            !mode.write ==> ranges_within(self.readers().push((start, end)), self.infos.disk_size as int),
    {
        let rs = self.readers();
        let ws = self.writers();
        if mode.write {
            let nws = ws.push((start, end));
            assert forall|i: int, j: int|
                0 <= i < nws.len() && 0 <= j < nws.len() && i != j implies !overlaps(
                #[trigger] nws[i],
                nws[j].0 as int,
                #[trigger] nws[j].1 as int,
            ) by {
                if i == ws.len() {
                    assert(!overlaps(ws[j], start as int, end as int));
                } else if j == ws.len() {
                    assert(!overlaps(ws[i], start as int, end as int));
                } else {
                    assert(nws[i] == ws[i] && nws[j] == ws[j]);
                }
            }
            assert forall|i: int, j: int|
                0 <= i < nws.len() && 0 <= j < rs.len() implies !overlaps(
                #[trigger] nws[i],
                rs[j].0 as int,
                #[trigger] rs[j].1 as int,
            ) by {
                if i == ws.len() {
                    assert(!overlaps(rs[j], start as int, end as int));
                } else {
                    assert(nws[i] == ws[i]);
                }
            }
            assert forall|i: int| 0 <= i < nws.len() implies #[trigger] nws[i].0 <= nws[i].1
                <= self.infos.disk_size by {
                if i < ws.len() {
                    assert(nws[i] == ws[i]);
                }
            }
        } else {
            let nrs = rs.push((start, end));
            assert forall|i: int, j: int|
                0 <= i < ws.len() && 0 <= j < nrs.len() implies !overlaps(
                #[trigger] ws[i],
                nrs[j].0 as int,
                #[trigger] nrs[j].1 as int,
            ) by {
                if j == rs.len() {
                    assert(!overlaps(ws[i], start as int, end as int));
                } else {
                    assert(nrs[j] == rs[j]);
                }
            }
            assert forall|i: int| 0 <= i < nrs.len() implies #[trigger] nrs[i].0 <= nrs[i].1
                <= self.infos.disk_size by {
                if i < rs.len() {
                    assert(nrs[i] == rs[i]);
                    assert(rs[i].0 <= rs[i].1 <= self.infos.disk_size);
                } else {
                    assert(nrs[i] == (start, end));
                }
            }
        }
    }
    /// Takes back what `sub` borrowed: one record of its range leaves the list it was recorded
    /// in.
    pub fn release(&mut self, sub: SubDisk)
        requires
            old(self).wf(),
        ensures
            final(self).wf(),
            final(self).inner() == old(self).inner(),
            final(self).infos() == old(self).infos(),
            final(self).contents() == old(self).contents(),
            sub.spec_permissions().write ==> final(self).writers() == remove_one(
                old(self).writers(),
                (sub.spec_start(), sub.spec_end()),
            ) && final(self).readers() == old(self).readers(),
            !sub.spec_permissions().write && sub.spec_permissions().read ==> final(self).readers()
                == remove_one(old(self).readers(), (sub.spec_start(), sub.spec_end()))
                && final(self).writers() == old(self).writers(),
            !sub.spec_permissions().write && !sub.spec_permissions().read ==> final(self).readers()
                == old(self).readers() && final(self).writers() == old(self).writers(),
    {
        let r = (sub.start, sub.end);
        if sub.permissions.write {
            if let Some(k) = find_range(&self.w_borrows, r) {
                proof {
                    lemma_first_index_unique(self.w_borrows@, r, k as int);
                    lemma_remove_keeps_consistent(self.r_borrows@, self.w_borrows@, k as int, true);
                    lemma_remove_keeps_within(self.w_borrows@, k as int, self.infos.disk_size as int);
                }
                self.w_borrows.remove(k);
            }
        } else if sub.permissions.read {
            if let Some(k) = find_range(&self.r_borrows, r) {
                proof {
                    lemma_first_index_unique(self.r_borrows@, r, k as int);
                    lemma_remove_keeps_consistent(self.r_borrows@, self.w_borrows@, k as int, false);
                    lemma_remove_keeps_within(self.r_borrows@, k as int, self.infos.disk_size as int);
                }
                self.r_borrows.remove(k);
            }
        }
    }

    /// Lends out the ranges `parts` in `permissions`, as one device made of them in order.
    /// Fails with `Busy` when a part conflicts with what is lent out or two parts overlap, then
    /// with `InvalidDiskSize` when a part does not lie within the device.
    pub fn fragmented_subdisk(&mut self, parts: Vec<(usize, usize)>, permissions: Permissions) -> (r:
        Result<FragmentedSubDisk, DiskErr>)
        requires
            old(self).wf(),
        ensures
            final(self).wf(),
            final(self).inner() == old(self).inner(),
            final(self).infos() == old(self).infos(),
            final(self).contents() == old(self).contents(),
            some_part_conflicts(old(self).readers(), old(self).writers(), parts@, permissions)
                || !parts_disjoint(parts@) ==> r == Err::<FragmentedSubDisk, DiskErr>(DiskErr::Busy),
            !some_part_conflicts(old(self).readers(), old(self).writers(), parts@, permissions)
                && parts_disjoint(parts@) && !ranges_within(parts@, old(self).infos().disk_size as int)
                ==> r == Err::<FragmentedSubDisk, DiskErr>(DiskErr::InvalidDiskSize),
            r matches Err(e) ==> (e == DiskErr::Busy || e == DiskErr::InvalidDiskSize),
            r == Err::<FragmentedSubDisk, DiskErr>(DiskErr::Busy) ==> some_part_conflicts(
                old(self).readers(),
                old(self).writers(),
                parts@,
                permissions,
            ) || !parts_disjoint(parts@),
            r == Err::<FragmentedSubDisk, DiskErr>(DiskErr::InvalidDiskSize) ==> !ranges_within(
                parts@,
                old(self).infos().disk_size as int,
            ) || total_len(parts@) > usize::MAX,
            r is Err ==> final(self).readers() == old(self).readers() && final(self).writers()
                == old(self).writers(),
            r matches Ok(f) ==> {
                &&& !some_part_conflicts(old(self).readers(), old(self).writers(), parts@, permissions)
                &&& parts_disjoint(parts@)
                &&& ranges_within(parts@, old(self).infos().disk_size as int)
                &&& f.wf()
                &&& f.spec_parts() == parts@
                &&& f.spec_permissions() == permissions
                &&& f.spec_sector_size() == old(self).infos().sector_size
                &&& final(self).writers() == if permissions.write {
                    old(self).writers() + parts@
                } else {
                    old(self).writers()
                }
                &&& final(self).readers() == if !permissions.write && permissions.read {
                    old(self).readers() + parts@
                } else {
                    old(self).readers()
                }
            },
    {
        let mut i: usize = 0;
        while i < parts.len()
            invariant
                i <= parts@.len(),
                self.wf(),
                *self == *old(self),
                forall|k: int|
                    0 <= k < i ==> !#[trigger] conflicts(
                        self.readers(),
                        self.writers(),
                        parts@[k].0 as int,
                        parts@[k].1 as int,
                        permissions,
                    ),
                forall|a: int, b: int|
                    0 <= a < i && 0 <= b < i && a != b ==> !overlaps(
                        #[trigger] parts@[a],
                        parts@[b].0 as int,
                        #[trigger] parts@[b].1 as int,
                    ),
            decreases parts@.len() - i,
        {
            let p = parts[i];
            if self.is_w_borrowed(p.0, p.1) || (permissions.write && self.is_r_borrowed(p.0, p.1)) {
                proof {
                    assert(conflicts(self.readers(), self.writers(), parts@[i as int].0 as int, parts@[i as int].1 as int, permissions));
                }
                return Err(DiskErr::Busy);
            }
            let mut j: usize = 0;
            while j < i
                invariant
                    i < parts@.len(),
                    self.wf(),
                    *self == *old(self),
                    j <= i,
                    p == parts@[i as int],
                    forall|b: int| 0 <= b < j ==> !#[trigger] overlaps(parts@[b], p.0 as int, p.1 as int),
                decreases i - j,
            {
                if parts[j].0 < p.1 && p.0 < parts[j].1 {
                    proof {
                        assert(overlaps(parts@[j as int], parts@[i as int].0 as int, parts@[i as int].1 as int));
                        assert(!parts_disjoint(parts@));
                    }
                    return Err(DiskErr::Busy);
                }
                j += 1;
            }
            proof {
                assert forall|a: int, b: int|
                    0 <= a < i + 1 && 0 <= b < i + 1 && a != b implies !overlaps(
                    #[trigger] parts@[a],
                    parts@[b].0 as int,
                    #[trigger] parts@[b].1 as int,
                ) by {
                    if a == i {
                        assert(!overlaps(parts@[b], p.0 as int, p.1 as int));
                    } else if b == i {
                        assert(!overlaps(parts@[a], p.0 as int, p.1 as int));
                    }
                }
            }
            i += 1;
        }
        proof {
            assert(parts_disjoint(parts@));
            if some_part_conflicts(self.readers(), self.writers(), parts@, permissions) {
                let k = choose|k: int| 0 <= k < parts@.len() && #[trigger] conflicts(
                    self.readers(),
                    self.writers(),
                    parts@[k].0 as int,
                    parts@[k].1 as int,
                    permissions,
                );
                assert(false);
            }
        }
        let mut total: usize = 0;
        let mut i: usize = 0;
        while i < parts.len()
            invariant
                i <= parts@.len(),
                self.wf(),
                *self == *old(self),
                parts_disjoint(parts@),
                !some_part_conflicts(self.readers(), self.writers(), parts@, permissions),
                ranges_within(parts@.subrange(0, i as int), self.infos.disk_size as int),
                total == total_len(parts@.subrange(0, i as int)),
            decreases parts@.len() - i,
        {
            let p = parts[i];
            if p.0 > p.1 || p.1 > self.infos.disk_size {
                proof {
                    assert(parts@[i as int] == p);
                }
                return Err(DiskErr::InvalidDiskSize);
            }
            proof {
                lemma_total_len_prefix(parts@, i as int + 1);
            }
            let w = p.1 - p.0;
            match total.checked_add(w) {
                Some(t) => {
                    total = t;
                },
                None => {
                    proof {
                        if ranges_within(parts@, self.infos.disk_size as int) {
                            lemma_total_len_monotone(parts@, i as int + 1);
                        }
                    }
                    return Err(DiskErr::InvalidDiskSize);
                },
            }
            proof {
                let q = parts@.subrange(0, i as int + 1);
                assert forall|k: int| #![trigger q[k]] 0 <= k < q.len() implies q[k].0 <= q[k].1 && q[k].1 <= self.infos.disk_size by {
                    if k < i {
                        assert(q[k] == parts@.subrange(0, i as int)[k]);
                    }
                }
            }
            i += 1;
        }
        assert(parts@.subrange(0, parts@.len() as int) =~= parts@);
        proof {
            assert(parts_disjoint(parts@));
            assert(!some_part_conflicts(self.readers(), self.writers(), parts@, permissions));
            lemma_register_parts(self.r_borrows@, self.w_borrows@, parts@, permissions, self.infos.disk_size as int);
        }
        let mut i: usize = 0;
        let ghost old_r = self.r_borrows@;
        let ghost old_w = self.w_borrows@;
        while i < parts.len()
            invariant
                i <= parts@.len(),
                self.disk == old(self).disk,
                self.infos == old(self).infos,
                permissions.write ==> self.w_borrows@ == old_w + parts@.subrange(0, i as int) && self.r_borrows@ == old_r,
                !permissions.write && permissions.read ==> self.r_borrows@ == old_r + parts@.subrange(0, i as int) && self.w_borrows@ == old_w,
                !permissions.write && !permissions.read ==> self.r_borrows@ == old_r && self.w_borrows@ == old_w,
            decreases parts@.len() - i,
        {
            if permissions.write {
                self.w_borrows.push(parts[i]);
                assert(old_w + parts@.subrange(0, i as int + 1) =~= (old_w + parts@.subrange(0, i as int)).push(parts@[i as int]));
            } else if permissions.read {
                self.r_borrows.push(parts[i]);
                assert(old_r + parts@.subrange(0, i as int + 1) =~= (old_r + parts@.subrange(0, i as int)).push(parts@[i as int]));
            }
            i += 1;
        }
        proof {
            assert forall|k: int| #![trigger parts@[k]] 0 <= k < parts@.len() implies parts@[k].0 <= parts@[k].1 by {}
        }
        Ok(FragmentedSubDisk { parts, sector_size: self.infos.sector_size.duplicate(), permissions })
    }

    /// Takes back what `f` borrowed: for each part in order, one record of it leaves the list
    /// it was recorded in.
    pub fn release_fragmented(&mut self, f: FragmentedSubDisk)
        requires
            old(self).wf(),
        ensures
            final(self).wf(),
            final(self).inner() == old(self).inner(),
            final(self).infos() == old(self).infos(),
            final(self).contents() == old(self).contents(),
            f.spec_permissions().write ==> final(self).writers() == remove_each(
                old(self).writers(),
                f.spec_parts(),
            ) && final(self).readers() == old(self).readers(),
            !f.spec_permissions().write && f.spec_permissions().read ==> final(self).readers()
                == remove_each(old(self).readers(), f.spec_parts()) && final(self).writers() == old(
                self,
            ).writers(),
            !f.spec_permissions().write && !f.spec_permissions().read ==> final(self).readers()
                == old(self).readers() && final(self).writers() == old(self).writers(),
    {
        let mut i: usize = 0;
        while i < f.parts.len()
            invariant
                i <= f.parts@.len(),
                self.wf(),
                self.disk == old(self).disk,
                self.infos == old(self).infos,
                f.permissions.write ==> self.w_borrows@ == remove_each(old(self).w_borrows@, f.parts@.subrange(0, i as int)) && self.r_borrows@ == old(self).r_borrows@,
                !f.permissions.write && f.permissions.read ==> self.r_borrows@ == remove_each(old(self).r_borrows@, f.parts@.subrange(0, i as int)) && self.w_borrows@ == old(self).w_borrows@,
                !f.permissions.write && !f.permissions.read ==> self.r_borrows@ == old(self).r_borrows@ && self.w_borrows@ == old(self).w_borrows@,
            decreases f.parts@.len() - i,
        {
            let r = f.parts[i];
            assert(f.parts@.subrange(0, i as int + 1).drop_last() =~= f.parts@.subrange(0, i as int));
            if f.permissions.write {
                if let Some(k) = find_range(&self.w_borrows, r) {
                    proof {
                        lemma_first_index_unique(self.w_borrows@, r, k as int);
                        lemma_remove_keeps_consistent(self.r_borrows@, self.w_borrows@, k as int, true);
                        lemma_remove_keeps_within(self.w_borrows@, k as int, self.infos.disk_size as int);
                    }
                    self.w_borrows.remove(k);
                }
            } else if f.permissions.read {
                if let Some(k) = find_range(&self.r_borrows, r) {
                    proof {
                        lemma_first_index_unique(self.r_borrows@, r, k as int);
                        lemma_remove_keeps_consistent(self.r_borrows@, self.w_borrows@, k as int, false);
                        lemma_remove_keeps_within(self.r_borrows@, k as int, self.infos.disk_size as int);
                    }
                    self.r_borrows.remove(k);
                }
            }
            i += 1;
        }
        assert(f.parts@.subrange(0, f.parts@.len() as int) =~= f.parts@);
    }

    /// Reads sector `sector` of the fragmented sub-device `f`. The sector must lie within one
    /// part, at a parent offset that is a multiple of its size.
    pub fn read_fragmented_sector(
        &self,
        f: &FragmentedSubDisk,
        sector: usize,
        buf: &mut Vec<u8>,
    ) -> (r: Result<(), DiskErr>)
        requires
            self.wf(),
            f.wf(),
        ensures
            final(buf)@.len() == old(buf)@.len(),
            frag_outcome(
                self.readers(),
                self.writers(),
                f,
                sector as int,
                old(buf)@.len() as int,
                false,
                r,
            ),
            r is Ok ==> final(buf)@ == frag_contents(f.spec_parts(), self.contents()).subrange(
                sector * old(buf)@.len(),
                sector * old(buf)@.len() + old(buf)@.len(),
            ),
            !frag_checks_pass(self.readers(), self.writers(), f, sector as int, old(buf)@.len() as int, false)
                ==> final(buf)@ == old(buf)@,
            frag_io_owed(self, f, sector as int, old(buf)@.len() as int, false) ==> r is Ok,
    {
        let len = buf.len();
        let (ps, Ghost(i)) = self.frag_sector(f, sector, len, false)?;
        proof {
            self.disk.lemma_contents_len();
            if f.spec_sector_size() == self.infos().sector_size {
                lemma_frag_parent_ok(self.infos(), f, i, sector as int, len as int);
            }
        }
        proof {
            self.disk.lemma_contents_len();
        }
        let r = self.disk.read_sector(ps, buf);
        proof {
            if r is Ok {
                lemma_frag_slice(f.parts@, self.disk.contents(), i, sector * len, len as int);
            }
        }
        r
    }

    /// Writes sector `sector` of the fragmented sub-device `f`. The sector must lie within one
    /// part, at a parent offset that is a multiple of its size.
    pub fn write_fragmented_sector(&mut self, f: &FragmentedSubDisk, sector: usize, buf: &[u8]) -> (r:
        Result<(), DiskErr>)
        requires
            old(self).wf(),
            f.wf(),
        ensures
            final(self).wf(),
            final(self).infos() == old(self).infos(),
            final(self).readers() == old(self).readers(),
            final(self).writers() == old(self).writers(),
            frag_outcome(
                old(self).readers(),
                old(self).writers(),
                f,
                sector as int,
                buf@.len() as int,
                true,
                r,
            ),
            r is Ok ==> exists|i: int|
                #[trigger] holds_byte(f.spec_parts(), i, sector * buf@.len()) && final(self).contents()
                    == splice(
                    old(self).contents(),
                    f.spec_parts()[i].0 + sector * buf@.len() - part_offset(f.spec_parts(), i),
                    buf@,
                ),
            !frag_checks_pass(old(self).readers(), old(self).writers(), f, sector as int, buf@.len() as int, true)
                ==> final(self).contents() == old(self).contents(),
            frag_io_owed(old(self), f, sector as int, buf@.len() as int, true) ==> r is Ok,
            final(self).inner().reliable() == old(self).inner().reliable(),
            forall|s: int, l: int, w: bool| #[trigger] final(self).inner().refuses(s, l, w)
                == old(self).inner().refuses(s, l, w),
    {
        let len = buf.len();
        let (ps, Ghost(i)) = self.frag_sector(f, sector, len, true)?;
        proof {
            self.disk.lemma_contents_len();
            if f.spec_sector_size() == self.infos().sector_size {
                lemma_frag_parent_ok(self.infos(), f, i, sector as int, len as int);
            }
        }
        let r = self.disk.write_sector(ps, buf);
        proof {
            if r is Ok {
                assert(holds_byte(f.parts@, i, sector * len));
            }
        }
        r
    }

    /// Validates a request on a fragmented sub-device, and translates its sector index to the
    /// parent's; also names the part that holds it.
    fn frag_sector(&self, f: &FragmentedSubDisk, sector: usize, len: usize, write: bool) -> (r:
        Result<(usize, Ghost<int>), DiskErr>)
        requires
            self.wf(),
            f.wf(),
        ensures
            r is Err ==> frag_outcome(
                self.readers(),
                self.writers(),
                f,
                sector as int,
                len as int,
                write,
                Err::<(), DiskErr>(r->Err_0),
            ),
            frag_checks_pass(self.readers(), self.writers(), f, sector as int, len as int, write) ==> r is Ok,
            r matches Ok((ps, gi)) ==> {
                let i = gi@;
                let parts = f.spec_parts();
                &&& parts_recorded(self.readers(), self.writers(), parts, f.spec_permissions())
                &&& permits(f.spec_permissions(), write)
                &&& len > 0 && f.spec_sector_size().supports(len as int, total_len(parts))
                &&& sector * len + len <= total_len(parts)
                &&& holds_byte(parts, i, sector * len)
                &&& sector_fits_part(parts, i, sector * len, len as int)
                &&& ranges_within(parts, self.infos().disk_size as int)
                &&& forall|j: int| #[trigger] holds_byte(parts, j, sector * len) ==> j == i
                &&& ps * len == parts[i].0 + sector * len - part_offset(parts, i)
            },
    {
        let ghost parts = f.parts@;
        let recorded = f.permissions.write || f.permissions.read;
        let mut k: usize = 0;
        while recorded && k < f.parts.len()
            invariant
                k <= parts.len(),
                parts == f.parts@,
                recorded == (f.permissions.write || f.permissions.read),
                recorded ==> forall|j: int|
                    0 <= j < k ==> #[trigger] recorded_in(self.readers(), self.writers(), parts[j], f.permissions),
            decreases parts.len() - k,
        {
            let found = if f.permissions.write {
                find_range(&self.w_borrows, f.parts[k]).is_some()
            } else {
                find_range(&self.r_borrows, f.parts[k]).is_some()
            };
            if !found {
                proof {
                    assert(!recorded_in(self.readers(), self.writers(), parts[k as int], f.permissions));
                }
                return Err(DiskErr::UnreachableDisk);
            }
            k += 1;
        }
        proof {
            assert(parts_recorded(self.readers(), self.writers(), parts, f.permissions));
        }
        let allowed = if write {
            f.permissions.write
        } else {
            f.permissions.read
        };
        if !allowed {
            return Err(DiskErr::InvalidPermission { disk_permissions: f.permissions });
        }
        let total = f.size();
        if len == 0 || !f.sector_size.is_supported(len, total) {
            return Err(
                DiskErr::InvalidSectorSize { found: len, supported: f.sector_size.duplicate(), start: 0 },
            );
        }
        let max = total / len;
        let off = match sector.checked_mul(len) {
            Some(off) => off,
            None => {
                return Err(DiskErr::InvalidSectorIndex { found: sector, max });
            },
        };
        if off > total - len {
            return Err(DiskErr::InvalidSectorIndex { found: sector, max });
        }
        // Find the part that holds byte `off`.
        let mut acc: usize = 0;
        let mut i: usize = 0;
        loop
            invariant
                parts == f.parts@,
                f.wf(),
                self.wf(),
                parts_recorded(self.readers(), self.writers(), parts, f.permissions),
                permits(f.permissions, write),
                len > 0 && f.sector_size@.supports(len as int, total_len(parts)),
                off == sector * len,
                total == total_len(parts),
                i <= parts.len(),
                acc == part_offset(parts, i as int),
                acc <= off,
                off + len <= total_len(parts),
                len > 0,
            decreases parts.len() - i,
        {
            proof {
                if i == parts.len() {
                    assert(parts.subrange(0, i as int) =~= parts);
                }
                lemma_total_len_prefix(parts, i as int + 1);
                lemma_total_len_monotone(parts, i as int + 1);
                assert(parts[i as int].0 <= parts[i as int].1);
            }
            let p = f.parts[i];
            let w = p.1 - p.0;
            if off < acc + w {
                proof {
                    assert(holds_byte(parts, i as int, off as int));
                    assert forall|j: int| #[trigger] holds_byte(parts, j, off as int) implies j == i by {
                        lemma_holds_byte_unique(parts, i as int, j, off as int);
                    }
                }
                let start = p.0 + (off - acc);
                if off + len > acc + w || start % len != 0 {
                    return Err(
                        DiskErr::InvalidSectorSize {
                            found: len,
                            supported: f.sector_size.duplicate(),
                            start,
                        },
                    );
                }
                proof {
                    self.lemma_recorded_within(parts, f.permissions);
                    lemma_exact_div(start as int, len as int);
                }
                return Ok((start / len, Ghost(i as int)));
            }
            acc = acc + w;
            assert(i < f.parts.len());
            i += 1;
        }
    }

    /// Reads sector `sector` of the sub-device `sub`. The buffer length is the sector size; the
    /// sub-device's start must be a multiple of it.
    pub fn read_sub_sector(&self, sub: &SubDisk, sector: usize, buf: &mut Vec<u8>) -> (r: Result<
        (),
        DiskErr,
    >)
        requires
            self.wf(),
        ensures
            final(buf)@.len() == old(buf)@.len(),
            sub_outcome(
                self.readers(),
                self.writers(),
                sub,
                sector as int,
                old(buf)@.len() as int,
                false,
                r,
            ),
            r is Ok ==> final(buf)@ == self.contents().subrange(
                sub.spec_start() + sector * old(buf)@.len(),
                sub.spec_start() + sector * old(buf)@.len() + old(buf)@.len(),
            ),
            sub_io_owed(self, sub, sector as int, old(buf)@.len() as int, false) ==> r is Ok,
            !(recorded_in(
                self.readers(),
                self.writers(),
                (sub.spec_start(), sub.spec_end()),
                sub.spec_permissions(),
            ) && sub_request_ok(sub, sector as int, old(buf)@.len() as int, false)) ==> final(buf)@
                == old(buf)@,
    {
        let len = buf.len();
        let ps = self.sub_sector(sub, sector, len, false)?;
        proof {
            self.disk.lemma_contents_len();
            lemma_supports_monotone(
                sub.sector_size@,
                len as int,
                (sub.end - sub.start) as int,
                self.infos.disk_size as int,
            );
        }
        self.disk.read_sector(ps, buf)
    }

    /// Writes sector `sector` of the sub-device `sub`. The buffer length is the sector size; the
    /// sub-device's start must be a multiple of it.
    pub fn write_sub_sector(&mut self, sub: &SubDisk, sector: usize, buf: &[u8]) -> (r: Result<
        (),
        DiskErr,
    >)
        requires
            old(self).wf(),
        ensures
            final(self).wf(),
            final(self).infos() == old(self).infos(),
            final(self).readers() == old(self).readers(),
            final(self).writers() == old(self).writers(),
            sub_outcome(
                old(self).readers(),
                old(self).writers(),
                sub,
                sector as int,
                buf@.len() as int,
                true,
                r,
            ),
            r is Ok ==> final(self).contents() == splice(
                old(self).contents(),
                sub.spec_start() + sector * buf@.len(),
                buf@,
            ),
            sub_io_owed(old(self), sub, sector as int, buf@.len() as int, true) ==> r is Ok,
            final(self).inner().reliable() == old(self).inner().reliable(),
            forall|s: int, l: int, w: bool| #[trigger] final(self).inner().refuses(s, l, w)
                == old(self).inner().refuses(s, l, w),
            !(recorded_in(
                old(self).readers(),
                old(self).writers(),
                (sub.spec_start(), sub.spec_end()),
                sub.spec_permissions(),
            ) && sub_request_ok(sub, sector as int, buf@.len() as int, true)) ==> final(self).contents()
                == old(self).contents(),
    {
        let len = buf.len();
        let ps = self.sub_sector(sub, sector, len, true)?;
        proof {
            lemma_supports_monotone(
                sub.sector_size@,
                len as int,
                (sub.end - sub.start) as int,
                self.infos.disk_size as int,
            );
        }
        self.disk.write_sector(ps, buf)
    }

    /// Validates a request on a sub-device and translates its sector index to the parent's.
    fn sub_sector(&self, sub: &SubDisk, sector: usize, len: usize, write: bool) -> (r: Result<
        usize,
        DiskErr,
    >)
        requires
            self.wf(),
        ensures
            r is Err ==> sub_outcome(
                self.readers(),
                self.writers(),
                sub,
                sector as int,
                len as int,
                write,
                Err::<(), DiskErr>(r->Err_0),
            ),
            recorded_in(
                self.readers(),
                self.writers(),
                (sub.spec_start(), sub.spec_end()),
                sub.spec_permissions(),
            ) && sub_request_ok(sub, sector as int, len as int, write) ==> r is Ok,
            r matches Ok(ps) ==> {
                &&& sub_request_ok(sub, sector as int, len as int, write)
                &&& recorded_in(
                    self.readers(),
                    self.writers(),
                    (sub.spec_start(), sub.spec_end()),
                    sub.spec_permissions(),
                )
                &&& ps * len == sub.spec_start() + sector * len
                &&& sub.spec_start() + sector * len + len <= self.infos().disk_size
                &&& sub.spec_end() <= self.infos().disk_size
            },
    {
        let at = if sub.permissions.write {
            find_range(&self.w_borrows, (sub.start, sub.end))
        } else if sub.permissions.read {
            find_range(&self.r_borrows, (sub.start, sub.end))
        } else {
            None
        };
        if at.is_none() && (sub.permissions.write || sub.permissions.read) {
            return Err(DiskErr::UnreachableDisk);
        }
        let allowed = if write {
            sub.permissions.write
        } else {
            sub.permissions.read
        };
        if !allowed {
            return Err(DiskErr::InvalidPermission { disk_permissions: sub.permissions });
        }
        let k = match at {
            Some(k) => k,
            None => {
                return Err(DiskErr::UnreachableDisk);
            },
        };
        proof {
            let rs = if sub.permissions.write {
                self.w_borrows@
            } else {
                self.r_borrows@
            };
            assert(ranges_within(rs, self.infos.disk_size as int));
            assert(rs[k as int] == (sub.start, sub.end));
            assert(rs[k as int].0 <= rs[k as int].1 <= self.infos.disk_size);
        }
        let size = sub.end - sub.start;
        if len == 0 || !sub.sector_size.is_supported(len, size) || sub.start % len != 0 {
            return Err(
                DiskErr::InvalidSectorSize {
                    found: len,
                    supported: sub.sector_size.duplicate(),
                    start: sub.start,
                },
            );
        }
        let max = size / len;
        let off = match sector.checked_mul(len) {
            Some(off) => off,
            None => {
                return Err(DiskErr::InvalidSectorIndex { found: sector, max });
            },
        };
        if off > size - len {
            return Err(DiskErr::InvalidSectorIndex { found: sector, max });
        }
        proof {
            lemma_translate(sub.start as int, sector as int, len as int);
        }
        Ok((sub.start + off) / len)
    }
}

/// A sub-device together with the tracker that lent it, usable as a device of its own: its
/// bytes are those of `[start, end)` on the tracker's device.
pub struct OwnedSubDisk<D: Disk> {
    tracker: DiskWrapper<D>,
    sub: SubDisk,
}

impl<D: Disk> OwnedSubDisk<D> {
    pub closed spec fn spec_tracker(&self) -> DiskWrapper<D> {
        self.tracker
    }

    pub closed spec fn spec_sub(&self) -> SubDisk {
        self.sub
    }

    /// Binds `sub` to `tracker`. Fails with `InvalidDiskSize` when its range does not lie
    /// within the tracker's device.
    pub fn new(tracker: DiskWrapper<D>, sub: SubDisk) -> (r: Result<Self, DiskErr>)
        requires
            tracker.wf(),
        ensures
            !(sub.spec_start() <= sub.spec_end() <= tracker.infos().disk_size) ==> r
                == Err::<Self, DiskErr>(DiskErr::InvalidDiskSize),
            sub.spec_start() <= sub.spec_end() <= tracker.infos().disk_size ==> r is Ok,
            r matches Ok(o) ==> o.wf() && o.spec_tracker() == tracker && o.spec_sub() == sub
                && o.contents() == tracker.contents().subrange(
                sub.spec_start() as int,
                sub.spec_end() as int,
            ) && o.infos() == (DiskInfosView {
                sector_size: sub.spec_sector_size(),
                disk_size: (sub.spec_end() - sub.spec_start()) as nat,
                permissions: sub.spec_permissions(),
            }),
    {
        if sub.start > sub.end || sub.end > tracker.size() {
            return Err(DiskErr::InvalidDiskSize);
        }
        Ok(OwnedSubDisk { tracker, sub })
    }

    /// Gives back the tracker and the sub-device.
    pub fn into_parts(self) -> (r: (DiskWrapper<D>, SubDisk))
        ensures
            r.0 == self.spec_tracker(),
            r.1 == self.spec_sub(),
    {
        (self.tracker, self.sub)
    }
}

impl<D: Disk> Disk for OwnedSubDisk<D> {
    closed spec fn infos(&self) -> DiskInfosView {
        DiskInfosView {
            sector_size: self.sub.sector_size@,
            disk_size: (self.sub.end - self.sub.start) as nat,
            permissions: self.sub.permissions,
        }
    }

    closed spec fn contents(&self) -> Seq<u8> {
        self.tracker.contents().subrange(self.sub.start as int, self.sub.end as int)
    }

    closed spec fn wf(&self) -> bool {
        &&& self.tracker.wf()
        &&& self.sub.start <= self.sub.end <= self.tracker.infos().disk_size
    }

    /// The tracker's device is reliable and refuses nothing, grants what the sub-device does,
    /// and has the sub-device's capability.
    closed spec fn reliable(&self) -> bool {
        &&& self.tracker.inner().reliable()
        &&& refuses_nothing(&self.tracker.inner())
        &&& (self.sub.permissions.read ==> self.tracker.infos().permissions.read)
        &&& (self.sub.permissions.write ==> self.tracker.infos().permissions.write)
        &&& self.sub.sector_size@ == self.tracker.infos().sector_size
    }

    /// The sub-device is no longer recorded with the tracker, or its start is not a multiple
    /// of the sector size.
    closed spec fn refuses(&self, sector: int, len: int, write: bool) -> bool {
        !recorded_in(
            self.tracker.readers(),
            self.tracker.writers(),
            (self.sub.start, self.sub.end),
            self.sub.permissions,
        ) || !(len > 0 && (self.sub.start as int) % len == 0)
    }

    /// `UnreachableDisk` for a sub-device no longer recorded; else the permission or the
    /// sector-size error.
    closed spec fn refusal(&self, sector: int, len: int, write: bool, e: DiskErr) -> bool {
        if !recorded_in(
            self.tracker.readers(),
            self.tracker.writers(),
            (self.sub.start, self.sub.end),
            self.sub.permissions,
        ) {
            e == DiskErr::UnreachableDisk
        } else {
            e is InvalidPermission || e is InvalidSectorSize
        }
    }

    proof fn lemma_contents_len(&self) {
        self.tracker.lemma_contents_len();
    }

    fn read_sector(&self, sector: usize, buf: &mut Vec<u8>) -> (r: Result<(), DiskErr>) {
        proof {
            self.tracker.lemma_contents_len();
        }
        let r = self.tracker.read_sub_sector(&self.sub, sector, buf);
        proof {
            if r is Ok {
                let s = self.sub.start as int;
                let len = old(buf)@.len() as int;
                assert(sector_bytes(self.contents(), sector as int, len) =~= self.tracker.contents().subrange(
                    s + sector * len,
                    s + sector * len + len,
                ));
            }
        }
        r
    }

    fn write_sector(&mut self, sector: usize, buf: &[u8]) -> (r: Result<(), DiskErr>) {
        proof {
            self.tracker.lemma_contents_len();
        }
        let r = self.tracker.write_sub_sector(&self.sub, sector, buf);
        proof {
            self.tracker.lemma_contents_len();
            if refuses_nothing(&old(self).tracker.inner()) {
                assert forall|s: int, l: int, w: bool| !#[trigger] self.tracker.inner().refuses(s, l, w) by {
                    assert(!old(self).tracker.inner().refuses(s, l, w));
                }
            }
            if refuses_nothing(&self.tracker.inner()) {
                assert forall|s: int, l: int, w: bool| !#[trigger] old(self).tracker.inner().refuses(s, l, w) by {
                    assert(!self.tracker.inner().refuses(s, l, w));
                }
            }
            if r is Ok {
                let s = self.sub.start as int;
                let e = self.sub.end as int;
                let len = buf@.len() as int;
                let c = old(self).tracker.contents();
                assert(self.tracker.contents().subrange(s, e) =~= splice(
                    c.subrange(s, e),
                    sector * len,
                    buf@,
                ));
            }
        }
        r
    }

    fn disk_infos(&self) -> (r: Result<DiskInfos, DiskErr>) {
        Ok(self.sub.disk_infos())
    }
}

/// The outcome `r` of a request of `len` bytes at sector `sector` of `sub` agrees with the
/// checks a sub-device makes, in this order: it is recorded with the tracker, has the
/// permission, the size is supported and aligned with the start, and the sector lies within.
pub open spec fn sub_outcome(
    readers: Seq<(usize, usize)>,
    writers: Seq<(usize, usize)>,
    sub: &SubDisk,
    sector: int,
    len: int,
    write: bool,
    r: Result<(), DiskErr>,
) -> bool {
    let s = sub.spec_start() as int;
    let e = sub.spec_end() as int;
    let rec = recorded_in(readers, writers, (sub.spec_start(), sub.spec_end()), sub.spec_permissions());
    &&& !rec ==> r == Err::<(), DiskErr>(DiskErr::UnreachableDisk)
    &&& rec && !permits(sub.spec_permissions(), write) ==> r == Err::<(), DiskErr>(
        DiskErr::InvalidPermission { disk_permissions: sub.spec_permissions() },
    )
    &&& rec && permits(sub.spec_permissions(), write) && !size_fits(sub, len) ==> (r matches Err(
        DiskErr::InvalidSectorSize { found, supported, start },
    ) && found == len && supported@ == sub.spec_sector_size() && start == s)
    &&& rec && permits(sub.spec_permissions(), write) && size_fits(sub, len) && s + sector * len
        + len > e ==> r == Err::<(), DiskErr>(
        DiskErr::InvalidSectorIndex { found: sector as usize, max: ((e - s) / len) as usize },
    )
    &&& r is Ok ==> rec && sub_request_ok(sub, sector, len, write)
}

/// A request on `sub` through `w` is owed success: the device is reliable and grants the
/// permission, `sub` is recorded with the tracker and has the device's capability, and the
/// request passes the sub-device's checks.
pub open spec fn sub_io_owed<D: Disk>(w: &DiskWrapper<D>, sub: &SubDisk, sector: int, len: int, write: bool) -> bool {
    &&& w.inner().reliable()
    &&& refuses_nothing(&w.inner())
    &&& permits(w.infos().permissions, write)
    &&& sub.spec_sector_size() == w.infos().sector_size
    &&& recorded_in(w.readers(), w.writers(), (sub.spec_start(), sub.spec_end()), sub.spec_permissions())
    &&& sub_request_ok(sub, sector, len, write)
}

/// `len` is a sector size the sub-device supports, and its start is a multiple of it.
pub open spec fn size_fits(sub: &SubDisk, len: int) -> bool {
    &&& len > 0
    &&& sub.spec_sector_size().supports(len, sub.spec_end() - sub.spec_start())
    &&& (sub.spec_start() as int) % len == 0
}

/// A request the sub-device accepts.
pub open spec fn sub_request_ok(sub: &SubDisk, sector: int, len: int, write: bool) -> bool {
    &&& permits(sub.spec_permissions(), write)
    &&& size_fits(sub, len)
    &&& sub.spec_start() + sector * len + len <= sub.spec_end()
}

proof fn lemma_translate(start: int, sector: int, len: int)
    requires
        len > 0,
        start % len == 0,
    ensures
        ((start + sector * len) / len) * len == start + sector * len,
{
    let q0 = start / len;
    vstd::arithmetic::div_mod::lemma_fundamental_div_mod(start, len);
    let q = q0 + sector;
    assert(start + sector * len == q * len + 0) by (nonlinear_arith)
        requires
            start == len * q0,
            q == q0 + sector,
    ;
    vstd::arithmetic::div_mod::lemma_fundamental_div_mod_converse(start + sector * len, len, q, 0);
}

proof fn lemma_register_parts(
    readers: Seq<(usize, usize)>,
    writers: Seq<(usize, usize)>,
    parts: Seq<(usize, usize)>,
    mode: Permissions,
    size: int,
)
    requires
        borrows_consistent(readers, writers),
        ranges_within(readers, size),
        ranges_within(writers, size),
        ranges_within(parts, size),
        parts_disjoint(parts),
        !some_part_conflicts(readers, writers, parts, mode),
    ensures
        mode.write ==> borrows_consistent(readers, writers + parts) && ranges_within(
            writers + parts,
            size,
        ),
        !mode.write ==> borrows_consistent(readers + parts, writers) && ranges_within(
            readers + parts,
            size,
        ),
{
    assert forall|k: int| 0 <= k < parts.len() implies !#[trigger] conflicts(
        readers,
        writers,
        parts[k].0 as int,
        parts[k].1 as int,
        mode,
    ) by {}
    if mode.write {
        let nw = writers + parts;
        let n = writers.len();
        assert forall|i: int, j: int|
            0 <= i < nw.len() && 0 <= j < nw.len() && i != j implies !overlaps(
            #[trigger] nw[i],
            nw[j].0 as int,
            #[trigger] nw[j].1 as int,
        ) by {
            if i < n && j < n {
                assert(nw[i] == writers[i] && nw[j] == writers[j]);
            } else if i >= n && j >= n {
                assert(nw[i] == parts[i - n] && nw[j] == parts[j - n]);
            } else if i < n {
                assert(nw[i] == writers[i] && nw[j] == parts[j - n]);
                assert(!conflicts(readers, writers, parts[j - n].0 as int, parts[j - n].1 as int, mode));
                if overlaps(writers[i], parts[j - n].0 as int, parts[j - n].1 as int) {
                    assert(any_overlap(writers, parts[j - n].0 as int, parts[j - n].1 as int));
                }
            } else {
                assert(nw[j] == writers[j] && nw[i] == parts[i - n]);
                assert(!conflicts(readers, writers, parts[i - n].0 as int, parts[i - n].1 as int, mode));
                if overlaps(writers[j], parts[i - n].0 as int, parts[i - n].1 as int) {
                    assert(any_overlap(writers, parts[i - n].0 as int, parts[i - n].1 as int));
                }
            }
        }
        assert forall|i: int, j: int|
            0 <= i < nw.len() && 0 <= j < readers.len() implies !overlaps(
            #[trigger] nw[i],
            readers[j].0 as int,
            #[trigger] readers[j].1 as int,
        ) by {
            if i < n {
                assert(nw[i] == writers[i]);
            } else {
                assert(nw[i] == parts[i - n]);
                assert(!conflicts(readers, writers, parts[i - n].0 as int, parts[i - n].1 as int, mode));
                if overlaps(readers[j], parts[i - n].0 as int, parts[i - n].1 as int) {
                    assert(any_overlap(readers, parts[i - n].0 as int, parts[i - n].1 as int));
                }
            }
        }
        assert forall|i: int| #![trigger nw[i]] 0 <= i < nw.len() implies nw[i].0 <= nw[i].1 && nw[i].1 <= size by {
            if i < n {
                assert(nw[i] == writers[i]);
            } else {
                assert(nw[i] == parts[i - n]);
            }
        }
    } else {
        let nr = readers + parts;
        let n = readers.len();
        assert forall|i: int, j: int|
            0 <= i < writers.len() && 0 <= j < nr.len() implies !overlaps(
            #[trigger] writers[i],
            nr[j].0 as int,
            #[trigger] nr[j].1 as int,
        ) by {
            if j < n {
                assert(nr[j] == readers[j]);
            } else {
                assert(nr[j] == parts[j - n]);
                assert(!conflicts(readers, writers, parts[j - n].0 as int, parts[j - n].1 as int, mode));
                if overlaps(writers[i], parts[j - n].0 as int, parts[j - n].1 as int) {
                    assert(any_overlap(writers, parts[j - n].0 as int, parts[j - n].1 as int));
                }
            }
        }
        assert forall|i: int| #![trigger nr[i]] 0 <= i < nr.len() implies nr[i].0 <= nr[i].1 && nr[i].1 <= size by {
            if i < n {
                assert(nr[i] == readers[i]);
            } else {
                assert(nr[i] == parts[i - n]);
            }
        }
    }
}

/// A request that passes a fragmented sub-device's checks, on a part within the device, asks
/// the device for a sector it holds, at a size its capability admits.
proof fn lemma_frag_parent_ok(info: DiskInfosView, f: &FragmentedSubDisk, i: int, sector: int, len: int)
    requires
        len > 0,
        f.spec_sector_size().supports(len, total_len(f.spec_parts())),
        f.spec_sector_size() == info.sector_size,
        holds_byte(f.spec_parts(), i, sector * len),
        sector_fits_part(f.spec_parts(), i, sector * len, len),
        ranges_within(f.spec_parts(), info.disk_size as int),
    ensures
        info.sector_size.supports(len, info.disk_size as int),
{
    let parts = f.spec_parts();
    assert(parts[i].0 <= parts[i].1 && parts[i].1 <= info.disk_size);
}

proof fn lemma_exact_div(x: int, len: int)
    requires
        len > 0,
        x % len == 0,
    ensures
        (x / len) * len == x,
{
    vstd::arithmetic::div_mod::lemma_fundamental_div_mod(x, len);
    assert((x / len) * len == len * (x / len)) by (nonlinear_arith);
}

/// Offsets of parts grow with their index.
proof fn lemma_part_offset_monotone(parts: Seq<(usize, usize)>, a: int, b: int)
    requires
        0 <= a <= b <= parts.len(),
        forall|i: int| #![trigger parts[i]] 0 <= i < parts.len() ==> parts[i].0 <= parts[i].1,
    ensures
        part_offset(parts, a) <= part_offset(parts, b),
{
    let q = parts.subrange(0, b);
    assert forall|i: int| #![trigger q[i]] 0 <= i < q.len() implies q[i].0 <= q[i].1 by {
        assert(q[i] == parts[i]);
    }
    lemma_total_len_monotone(q, a);
    assert(q.subrange(0, a) =~= parts.subrange(0, a));
}

/// At most one part holds a given byte.
proof fn lemma_holds_byte_unique(parts: Seq<(usize, usize)>, i: int, j: int, off: int)
    requires
        holds_byte(parts, i, off),
        holds_byte(parts, j, off),
        forall|k: int| #![trigger parts[k]] 0 <= k < parts.len() ==> parts[k].0 <= parts[k].1,
    ensures
        i == j,
{
    if i < j {
        lemma_total_len_prefix(parts, i + 1);
        lemma_part_offset_monotone(parts, i + 1, j);
    } else if j < i {
        lemma_total_len_prefix(parts, j + 1);
        lemma_part_offset_monotone(parts, j + 1, i);
    }
}

/// The concatenated view of a prefix of the parts begins the concatenated view of them all.
proof fn lemma_frag_prefix(parts: Seq<(usize, usize)>, c: Seq<u8>, k: int)
    requires
        0 <= k <= parts.len(),
        ranges_within(parts, c.len() as int),
    ensures
        frag_contents(parts, c).len() == total_len(parts),
        frag_contents(parts.subrange(0, k), c).len() == total_len(parts.subrange(0, k)),
        frag_contents(parts, c).subrange(0, total_len(parts.subrange(0, k))) == frag_contents(
            parts.subrange(0, k),
            c,
        ),
    decreases parts.len(),
{
    if parts.len() == 0 {
        assert(parts.subrange(0, k) =~= parts);
    } else {
        let p = parts.drop_last();
        assert forall|i: int| #![trigger p[i]] 0 <= i < p.len() implies p[i].0 <= p[i].1 && p[i].1 <= c.len() by {
            assert(p[i] == parts[i]);
        }
        assert(parts[parts.len() - 1].0 <= parts[parts.len() - 1].1);
        if k == parts.len() {
            lemma_frag_prefix(p, c, p.len() as int);
            assert(p.subrange(0, p.len() as int) =~= p);
            assert(parts.subrange(0, k) =~= parts);
            assert(frag_contents(parts, c).subrange(0, total_len(parts)) =~= frag_contents(parts, c));
        } else {
            lemma_frag_prefix(p, c, k);
            assert(p.subrange(0, k) =~= parts.subrange(0, k));
            lemma_frag_prefix(p, c, p.len() as int);
            assert(p.subrange(0, p.len() as int) =~= p);
            lemma_total_len_monotone_within(p, k, c.len() as int);
            assert(frag_contents(parts, c).subrange(0, total_len(parts.subrange(0, k))) =~= frag_contents(p, c).subrange(0, total_len(p.subrange(0, k))));
        }
    }
}

proof fn lemma_total_len_monotone_within(parts: Seq<(usize, usize)>, k: int, size: int)
    requires
        0 <= k <= parts.len(),
        ranges_within(parts, size),
    ensures
        0 <= total_len(parts.subrange(0, k)) <= total_len(parts),
{
    assert forall|i: int| #![trigger parts[i]] 0 <= i < parts.len() implies parts[i].0 <= parts[i].1 by {}
    lemma_total_len_monotone(parts, k);
}

/// A sector that lies within part `i` reads, in the concatenated view, as the matching bytes of
/// the parent.
proof fn lemma_frag_slice(parts: Seq<(usize, usize)>, c: Seq<u8>, i: int, off: int, len: int)
    requires
        ranges_within(parts, c.len() as int),
        holds_byte(parts, i, off),
        sector_fits_part(parts, i, off, len),
        len > 0,
    ensures
        frag_contents(parts, c).subrange(off, off + len) == c.subrange(
            parts[i].0 + off - part_offset(parts, i),
            parts[i].0 + off - part_offset(parts, i) + len,
        ),
{
    let q = parts.subrange(0, i + 1);
    lemma_frag_prefix(parts, c, i + 1);
    lemma_total_len_prefix(parts, i + 1);
    assert(q.drop_last() =~= parts.subrange(0, i));
    assert(q.last() == parts[i]);
    let fq = frag_contents(q, c);
    let fi = frag_contents(parts.subrange(0, i), c);
    lemma_frag_prefix(parts, c, i);
    assert(parts[i].0 <= parts[i].1 && parts[i].1 <= c.len());
    assert(fq == fi + c.subrange(parts[i].0 as int, parts[i].1 as int));
    let whole = frag_contents(parts, c);
    let t = total_len(q);
    lemma_total_len_monotone_within(parts, i + 1, c.len() as int);
    lemma_total_len_monotone_within(parts, i, c.len() as int);
    assert(whole.subrange(0, t) == fq);
    assert(off + len <= t);
    assert(whole.subrange(off, off + len) =~= whole.subrange(0, t).subrange(off, off + len));
    assert(fq.subrange(off, off + len) =~= c.subrange(
        parts[i].0 + off - part_offset(parts, i),
        parts[i].0 + off - part_offset(parts, i) + len,
    ));
}

proof fn lemma_remove_keeps_consistent(
    readers: Seq<(usize, usize)>,
    writers: Seq<(usize, usize)>,
    k: int,
    from_writers: bool,
)
    requires
        borrows_consistent(readers, writers),
        from_writers ==> 0 <= k < writers.len(),
        !from_writers ==> 0 <= k < readers.len(),
    ensures
        from_writers ==> borrows_consistent(readers, writers.remove(k)),
        !from_writers ==> borrows_consistent(readers.remove(k), writers),
{
    if from_writers {
        let nw = writers.remove(k);
        assert forall|i: int, j: int|
            0 <= i < nw.len() && 0 <= j < nw.len() && i != j implies !overlaps(
            #[trigger] nw[i],
            nw[j].0 as int,
            #[trigger] nw[j].1 as int,
        ) by {
            let oi = if i < k { i } else { i + 1 };
            let oj = if j < k { j } else { j + 1 };
            assert(nw[i] == writers[oi] && nw[j] == writers[oj]);
        }
        assert forall|i: int, j: int|
            0 <= i < nw.len() && 0 <= j < readers.len() implies !overlaps(
            #[trigger] nw[i],
            readers[j].0 as int,
            #[trigger] readers[j].1 as int,
        ) by {
            let oi = if i < k { i } else { i + 1 };
            assert(nw[i] == writers[oi]);
        }
    } else {
        let nr = readers.remove(k);
        assert forall|i: int, j: int|
            0 <= i < writers.len() && 0 <= j < nr.len() implies !overlaps(
            #[trigger] writers[i],
            nr[j].0 as int,
            #[trigger] nr[j].1 as int,
        ) by {
            let oj = if j < k { j } else { j + 1 };
            assert(nr[j] == readers[oj]);
        }
    }
}

proof fn lemma_remove_keeps_within(rs: Seq<(usize, usize)>, k: int, size: int)
    requires
        ranges_within(rs, size),
        0 <= k < rs.len(),
    ensures
        ranges_within(rs.remove(k), size),
{
    let nr = rs.remove(k);
    assert forall|i: int| 0 <= i < nr.len() implies #[trigger] nr[i].0 <= nr[i].1 <= size by {
        let oi = if i < k { i } else { i + 1 };
        assert(nr[i] == rs[oi]);
    }
}

fn find_range(rs: &Vec<(usize, usize)>, x: (usize, usize)) -> (r: Option<usize>)
    ensures
        r matches Some(k) ==> k < rs@.len() && rs@[k as int] == x && forall|j: int|
            0 <= j < k ==> rs@[j] != x,
        r is None ==> !rs@.contains(x),
{
    let mut i: usize = 0;
    while i < rs.len()
        invariant
            i <= rs@.len(),
            forall|j: int| 0 <= j < i ==> rs@[j] != x,
        decreases rs@.len() - i,
    {
        if rs[i].0 == x.0 && rs[i].1 == x.1 {
            return Some(i);
        }
        i += 1;
    }
    None
}

/// Sum of the widths of `parts`.
pub open spec fn total_len(parts: Seq<(usize, usize)>) -> int
    decreases parts.len(),
{
    if parts.len() == 0 {
        0
    } else {
        total_len(parts.drop_last()) + (parts.last().1 - parts.last().0)
    }
}

/// The bytes of `contents` that `parts` cover, concatenated in order.
pub open spec fn frag_contents(parts: Seq<(usize, usize)>, contents: Seq<u8>) -> Seq<u8>
    decreases parts.len(),
{
    if parts.len() == 0 {
        Seq::empty()
    } else {
        frag_contents(parts.drop_last(), contents) + contents.subrange(
            parts.last().0 as int,
            parts.last().1 as int,
        )
    }
}

/// No two of `parts` overlap.
pub open spec fn parts_disjoint(parts: Seq<(usize, usize)>) -> bool {
    forall|i: int, j: int|
        0 <= i < parts.len() && 0 <= j < parts.len() && i != j ==> !overlaps(
            #[trigger] parts[i],
            parts[j].0 as int,
            #[trigger] parts[j].1 as int,
        )
}

/// Some part conflicts with the borrows in `mode`.
pub open spec fn some_part_conflicts(
    readers: Seq<(usize, usize)>,
    writers: Seq<(usize, usize)>,
    parts: Seq<(usize, usize)>,
    mode: Permissions,
) -> bool {
    exists|i: int|
        0 <= i < parts.len() && #[trigger] conflicts(
            readers,
            writers,
            parts[i].0 as int,
            parts[i].1 as int,
            mode,
        )
}

/// Every part is recorded with the tracker in `mode`.
pub open spec fn parts_recorded(
    readers: Seq<(usize, usize)>,
    writers: Seq<(usize, usize)>,
    parts: Seq<(usize, usize)>,
    mode: Permissions,
) -> bool {
    forall|i: int| 0 <= i < parts.len() ==> #[trigger] recorded_in(readers, writers, parts[i], mode)
}

/// Where part `i` begins in the concatenated view.
pub open spec fn part_offset(parts: Seq<(usize, usize)>, i: int) -> int {
    total_len(parts.subrange(0, i))
}

/// Byte `off` of the concatenated view lies in part `i`.
pub open spec fn holds_byte(parts: Seq<(usize, usize)>, i: int, off: int) -> bool {
    &&& 0 <= i < parts.len()
    &&& part_offset(parts, i) <= off < part_offset(parts, i) + (parts[i].1 - parts[i].0)
}

/// The `len` bytes at `off` of the concatenated view lie in part `i`, at a parent offset that
/// is a multiple of `len`.
pub open spec fn sector_fits_part(parts: Seq<(usize, usize)>, i: int, off: int, len: int) -> bool {
    &&& off + len <= part_offset(parts, i) + (parts[i].1 - parts[i].0)
    &&& (parts[i].0 + off - part_offset(parts, i)) % len == 0
}

/// The outcome `r` of a request of `len` bytes at sector `sector` of `f` agrees with the checks
/// a fragmented sub-device makes, in this order: every part is recorded with the tracker, it
/// has the permission, the size is supported, the sector lies within, and it lies within one
/// part at an aligned parent offset.
pub open spec fn frag_outcome(
    readers: Seq<(usize, usize)>,
    writers: Seq<(usize, usize)>,
    f: &FragmentedSubDisk,
    sector: int,
    len: int,
    write: bool,
    r: Result<(), DiskErr>,
) -> bool {
    let parts = f.spec_parts();
    let total = total_len(parts);
    let off = sector * len;
    let rec = parts_recorded(readers, writers, parts, f.spec_permissions());
    let size_ok = len > 0 && f.spec_sector_size().supports(len, total);
    &&& !rec ==> r == Err::<(), DiskErr>(DiskErr::UnreachableDisk)
    &&& rec && !permits(f.spec_permissions(), write) ==> r == Err::<(), DiskErr>(
        DiskErr::InvalidPermission { disk_permissions: f.spec_permissions() },
    )
    &&& rec && permits(f.spec_permissions(), write) && !size_ok ==> (r matches Err(
        DiskErr::InvalidSectorSize { found, supported, start },
    ) && found == len && supported@ == f.spec_sector_size() && start == 0)
    &&& rec && permits(f.spec_permissions(), write) && size_ok && off + len > total ==> r == Err::<
        (),
        DiskErr,
    >(DiskErr::InvalidSectorIndex { found: sector as usize, max: (total / len) as usize })
    &&& forall|i: int|
        rec && permits(f.spec_permissions(), write) && size_ok && off + len <= total
            && #[trigger] holds_byte(parts, i, off) && !sector_fits_part(parts, i, off, len) ==> (
        r matches Err(DiskErr::InvalidSectorSize { found, supported, start }) && found == len
            && supported@ == f.spec_sector_size() && start == parts[i].0 + off - part_offset(
            parts,
            i,
        ))
    &&& r is Ok ==> rec && permits(f.spec_permissions(), write) && size_ok && off + len <= total
        && exists|i: int| #[trigger] holds_byte(parts, i, off) && sector_fits_part(parts, i, off, len)
}

/// A request of `len` bytes at sector `sector` of `f` passes every check of a fragmented
/// sub-device.
pub open spec fn frag_checks_pass(
    readers: Seq<(usize, usize)>,
    writers: Seq<(usize, usize)>,
    f: &FragmentedSubDisk,
    sector: int,
    len: int,
    write: bool,
) -> bool {
    let parts = f.spec_parts();
    let off = sector * len;
    &&& parts_recorded(readers, writers, parts, f.spec_permissions())
    &&& permits(f.spec_permissions(), write)
    &&& len > 0 && f.spec_sector_size().supports(len, total_len(parts))
    &&& off + len <= total_len(parts)
    &&& exists|i: int| #[trigger] holds_byte(parts, i, off) && sector_fits_part(parts, i, off, len)
}

/// A request on `f` through `w` is owed success: the device is reliable, refuses nothing and
/// grants the permission, `f` has the device's capability, and the request passes the checks.
pub open spec fn frag_io_owed<D: Disk>(
    w: &DiskWrapper<D>,
    f: &FragmentedSubDisk,
    sector: int,
    len: int,
    write: bool,
) -> bool {
    &&& w.inner().reliable()
    &&& refuses_nothing(&w.inner())
    &&& permits(w.infos().permissions, write)
    &&& f.spec_sector_size() == w.infos().sector_size
    &&& frag_checks_pass(w.readers(), w.writers(), f, sector, len, write)
}

/// A device made of the byte ranges `parts` of a tracker's device, in order, lent out in
/// `permissions`.
pub struct FragmentedSubDisk {
    parts: Vec<(usize, usize)>,
    sector_size: SectorSize,
    permissions: Permissions,
}

impl FragmentedSubDisk {
    pub closed spec fn spec_parts(&self) -> Seq<(usize, usize)> {
        self.parts@
    }

    pub closed spec fn spec_permissions(&self) -> Permissions {
        self.permissions
    }

    pub closed spec fn spec_sector_size(&self) -> SectorSizeView {
        self.sector_size@
    }

    /// Each part is a range, and the total size fits in `usize`.
    pub open spec fn wf(&self) -> bool {
        &&& forall|i: int|
            #![trigger self.spec_parts()[i]]
            0 <= i < self.spec_parts().len() ==> self.spec_parts()[i].0 <= self.spec_parts()[i].1
        &&& total_len(self.spec_parts()) <= usize::MAX
    }

    /// The parent ranges, in order.
    pub fn parts(&self) -> (r: &Vec<(usize, usize)>)
        ensures
            r@ == self.spec_parts(),
    {
        &self.parts
    }

    pub fn permissions(&self) -> (r: Permissions)
        ensures
            r == self.spec_permissions(),
    {
        self.permissions
    }

    /// The size in bytes: the sum of the parts' widths.
    pub fn size(&self) -> (r: usize)
        requires
            self.wf(),
        ensures
            r == total_len(self.spec_parts()),
    {
        let mut total: usize = 0;
        let mut i: usize = 0;
        while i < self.parts.len()
            invariant
                self.wf(),
                i <= self.parts@.len(),
                total == total_len(self.parts@.subrange(0, i as int)),
            decreases self.parts@.len() - i,
        {
            proof {
                lemma_total_len_prefix(self.parts@, i as int + 1);
                lemma_total_len_monotone(self.parts@, i as int + 1);
                assert(self.parts@[i as int].0 <= self.parts@[i as int].1);
            }
            total = total + (self.parts[i].1 - self.parts[i].0);
            i += 1;
        }
        assert(self.parts@.subrange(0, self.parts@.len() as int) =~= self.parts@);
        total
    }

    /// What the sub-device reports of itself.
    pub fn disk_infos(&self) -> (r: DiskInfos)
        requires
            self.wf(),
        ensures
            r@ == (DiskInfosView {
                sector_size: self.spec_sector_size(),
                disk_size: total_len(self.spec_parts()) as nat,
                permissions: self.spec_permissions(),
            }),
    {
        DiskInfos {
            sector_size: self.sector_size.duplicate(),
            disk_size: self.size(),
            permissions: self.permissions,
        }
    }
}

proof fn lemma_total_len_prefix(parts: Seq<(usize, usize)>, k: int)
    requires
        0 < k <= parts.len(),
    ensures
        total_len(parts.subrange(0, k)) == total_len(parts.subrange(0, k - 1)) + (parts[k - 1].1
            - parts[k - 1].0),
{
    assert(parts.subrange(0, k).drop_last() =~= parts.subrange(0, k - 1));
}

/// With ranges that do not end before they start, a prefix never covers more than the whole.
proof fn lemma_total_len_monotone(parts: Seq<(usize, usize)>, k: int)
    requires
        0 <= k <= parts.len(),
        forall|i: int| #![trigger parts[i]] 0 <= i < parts.len() ==> parts[i].0 <= parts[i].1,
    ensures
        0 <= total_len(parts.subrange(0, k)) <= total_len(parts),
    decreases parts.len(),
{
    if k == parts.len() {
        assert(parts.subrange(0, k) =~= parts);
        if parts.len() > 0 {
            let p = parts.drop_last();
            assert forall|i: int| #![trigger p[i]] 0 <= i < p.len() implies p[i].0 <= p[i].1 by {
                assert(p[i] == parts[i]);
            }
            lemma_total_len_monotone(p, p.len() as int);
            assert(p.subrange(0, p.len() as int) =~= p);
        }
    } else {
        let p = parts.drop_last();
        assert forall|i: int| #![trigger p[i]] 0 <= i < p.len() implies p[i].0 <= p[i].1 by {
            assert(p[i] == parts[i]);
        }
        lemma_total_len_monotone(p, k);
        assert(p.subrange(0, k) =~= parts.subrange(0, k));
    }
}

/// `rs` with each range that begins where the previous one ends merged into it.
pub open spec fn coalesce(rs: Seq<(usize, usize)>) -> Seq<(usize, usize)>
    decreases rs.len(),
{
    if rs.len() == 0 {
        Seq::empty()
    } else {
        let p = coalesce(rs.drop_last());
        let r = rs.last();
        if p.len() > 0 && p.last().1 == r.0 {
            p.drop_last().push((p.last().0, r.1))
        } else {
            p.push(r)
        }
    }
}

/// Merging adjacent ranges changes neither the bytes they cover, in order, nor their total
/// size.
pub proof fn lemma_coalesce_contents(rs: Seq<(usize, usize)>, c: Seq<u8>)
    requires
        ranges_within(rs, c.len() as int),
    ensures
        ranges_within(coalesce(rs), c.len() as int),
        frag_contents(coalesce(rs), c) == frag_contents(rs, c),
        total_len(coalesce(rs)) == total_len(rs),
    decreases rs.len(),
{
    if rs.len() > 0 {
        let q = rs.drop_last();
        assert forall|i: int| #![trigger q[i]] 0 <= i < q.len() implies q[i].0 <= q[i].1 && q[i].1 <= c.len() by {
            assert(q[i] == rs[i]);
        }
        lemma_coalesce_contents(q, c);
        let p = coalesce(q);
        let r = rs.last();
        assert(r.0 <= r.1 && r.1 <= c.len());
        if p.len() > 0 && p.last().1 == r.0 {
            let m = (p.last().0, r.1);
            let pd = p.drop_last();
            let out = pd.push(m);
            assert(out.drop_last() =~= pd);
            assert(p.last().0 <= p.last().1);
            assert forall|i: int| #![trigger out[i]] 0 <= i < out.len() implies out[i].0 <= out[i].1 && out[i].1 <= c.len() by {
                if i < pd.len() {
                    assert(out[i] == p[i]);
                }
            }
            assert(c.subrange(p.last().0 as int, r.1 as int) =~= c.subrange(p.last().0 as int, p.last().1 as int) + c.subrange(r.0 as int, r.1 as int));
            assert(frag_contents(p, c) == frag_contents(pd, c) + c.subrange(p.last().0 as int, p.last().1 as int));
            assert(frag_contents(out, c) =~= frag_contents(rs, c));
        } else {
            let out = p.push(r);
            assert(out.drop_last() =~= p);
            assert forall|i: int| #![trigger out[i]] 0 <= i < out.len() implies out[i].0 <= out[i].1 && out[i].1 <= c.len() by {
                if i < p.len() {
                    assert(out[i] == p[i]);
                }
            }
        }
    }
}

/// When the merged ranges lie within a device, so do the ranges they were merged from.
pub proof fn lemma_coalesce_within(rs: Seq<(usize, usize)>, size: int)
    requires
        forall|i: int| #![trigger rs[i]] 0 <= i < rs.len() ==> rs[i].0 <= rs[i].1,
        ranges_within(coalesce(rs), size),
    ensures
        ranges_within(rs, size),
    decreases rs.len(),
{
    if rs.len() > 0 {
        let q = rs.drop_last();
        let p = coalesce(q);
        let r = rs.last();
        assert(r.0 <= r.1);
        if p.len() > 0 && p.last().1 == r.0 {
            let out = p.drop_last().push((p.last().0, r.1));
            assert(out[out.len() - 1] == (p.last().0, r.1));
            assert forall|i: int| #![trigger p[i]] 0 <= i < p.len() implies p[i].0 <= p[i].1 && p[i].1 <= size by {
                if i < p.len() - 1 {
                    assert(out[i] == p[i]);
                } else {
                    lemma_coalesce_ordered(q);
                }
            }
        } else {
            let out = p.push(r);
            assert(out[out.len() - 1] == r);
            assert forall|i: int| #![trigger p[i]] 0 <= i < p.len() implies p[i].0 <= p[i].1 && p[i].1 <= size by {
                assert(out[i] == p[i]);
            }
        }
        assert forall|i: int| #![trigger q[i]] 0 <= i < q.len() implies q[i].0 <= q[i].1 by {
            assert(q[i] == rs[i]);
        }
        lemma_coalesce_within(q, size);
        assert forall|i: int| #![trigger rs[i]] 0 <= i < rs.len() implies rs[i].0 <= rs[i].1 && rs[i].1 <= size by {
            if i < q.len() {
                assert(q[i] == rs[i]);
            }
        }
    }
}

/// Merging keeps every range from ending before it starts.
proof fn lemma_coalesce_ordered(rs: Seq<(usize, usize)>)
    requires
        forall|i: int| #![trigger rs[i]] 0 <= i < rs.len() ==> rs[i].0 <= rs[i].1,
    ensures
        forall|i: int| #![trigger coalesce(rs)[i]] 0 <= i < coalesce(rs).len() ==> coalesce(rs)[i].0
            <= coalesce(rs)[i].1,
    decreases rs.len(),
{
    if rs.len() > 0 {
        let q = rs.drop_last();
        assert forall|i: int| #![trigger q[i]] 0 <= i < q.len() implies q[i].0 <= q[i].1 by {
            assert(q[i] == rs[i]);
        }
        lemma_coalesce_ordered(q);
        let p = coalesce(q);
        let r = rs.last();
        assert(r.0 <= r.1);
        if p.len() > 0 && p.last().1 == r.0 {
            let out = p.drop_last().push((p.last().0, r.1));
            assert(p.last().0 <= p.last().1);
            assert forall|i: int| #![trigger out[i]] 0 <= i < out.len() implies out[i].0 <= out[i].1 by {
                if i < out.len() - 1 {
                    assert(out[i] == p[i]);
                }
            }
        } else {
            let out = p.push(r);
            assert forall|i: int| #![trigger out[i]] 0 <= i < out.len() implies out[i].0 <= out[i].1 by {
                if i < p.len() {
                    assert(out[i] == p[i]);
                }
            }
        }
    }
}

/// Once `[a, b)` is lent out for writing, every request that overlaps it conflicts, in any
/// mode; a request that overlaps no recorded range does not conflict.
pub proof fn lemma_write_grant_exclusive(
    readers: Seq<(usize, usize)>,
    writers: Seq<(usize, usize)>,
    a: usize,
    b: usize,
    c: int,
    d: int,
    mode: Permissions,
)
    ensures
        (a < d && c < b) ==> conflicts(readers, writers.push((a, b)), c, d, mode),
        !any_overlap(readers, c, d) && !any_overlap(writers.push((a, b)), c, d) ==> !conflicts(
            readers,
            writers.push((a, b)),
            c,
            d,
            mode,
        ),
{
    let nw = writers.push((a, b));
    if a < d && c < b {
        assert(overlaps(nw[writers.len() as int], c, d));
    }
}

/// Whatever sequence of lending and releasing produced a tracker, its writer ranges are
/// pairwise disjoint and disjoint from every reader range.
pub proof fn lemma_borrows_disjoint<D: Disk>(w: &DiskWrapper<D>)
    requires
        w.wf(),
    ensures
        borrows_consistent(w.readers(), w.writers()),
{
}

fn ranges_overlap(rs: &Vec<(usize, usize)>, start: usize, end: usize) -> (r: bool)
    ensures
        r == any_overlap(rs@, start as int, end as int),
{
    let mut i: usize = 0;
    while i < rs.len()
        invariant
            i <= rs@.len(),
            forall|j: int| 0 <= j < i ==> !#[trigger] overlaps(rs@[j], start as int, end as int),
        decreases rs@.len() - i,
    {
        if rs[i].0 < end && start < rs[i].1 {
            assert(overlaps(rs@[i as int], start as int, end as int));
            return true;
        }
        i += 1;
    }
    false
}

impl<D: Disk> Disk for DiskWrapper<D> {
    closed spec fn infos(&self) -> DiskInfosView {
        self.disk.infos()
    }

    closed spec fn contents(&self) -> Seq<u8> {
        self.disk.contents()
    }

    closed spec fn wf(&self) -> bool {
        &&& self.disk.wf()
        &&& self.infos@ == self.disk.infos()
        &&& borrows_consistent(self.r_borrows@, self.w_borrows@)
        &&& ranges_within(self.r_borrows@, self.infos.disk_size as int)
        &&& ranges_within(self.w_borrows@, self.infos.disk_size as int)
    }

    /// As reliable as the device it owns.
    closed spec fn reliable(&self) -> bool {
        self.disk.reliable()
    }

    /// A borrow in the way: a writer overlaps the sector, or for a write a reader does; or
    /// the device's own refusal.
    closed spec fn refuses(&self, sector: int, len: int, write: bool) -> bool {
        tracker_refuses(self.r_borrows@, self.w_borrows@, sector, len, write) || self.disk.refuses(
            sector,
            len,
            write,
        )
    }

    /// `Busy` for a borrow in the way, else what the device gives.
    closed spec fn refusal(&self, sector: int, len: int, write: bool, e: DiskErr) -> bool {
        if tracker_refuses(self.r_borrows@, self.w_borrows@, sector, len, write) {
            e == DiskErr::Busy
        } else {
            self.disk.refusal(sector, len, write, e)
        }
    }

    proof fn lemma_contents_len(&self) {
        self.disk.lemma_contents_len();
    }

    /// Fails with `Busy` where a writer range overlaps the sector.
    fn read_sector(&self, sector: usize, buf: &mut Vec<u8>) -> (r: Result<(), DiskErr>) {
        self.read_direct(sector, buf)
    }

    /// Fails with `Busy` where a reader or a writer range overlaps the sector.
    fn write_sector(&mut self, sector: usize, buf: &[u8]) -> (r: Result<(), DiskErr>) {
        self.write_direct(sector, buf)
    }

    fn disk_infos(&self) -> (r: Result<DiskInfos, DiskErr>) {
        Ok(self.infos.duplicate())
    }
}

} // verus!
