//! A device held in memory.

use vstd::prelude::*;
use crate::disk::{
    check_request, refuses_nothing, request_ok, sector_bytes, splice, Disk, DiskErr, DiskInfos, DiskInfosView,
    Permissions, SectorSize,
};

verus! {

/// A device held in memory.
pub struct MemDisk {
    data: Vec<u8>,
    sector_size: SectorSize,
    permissions: Permissions,
}

impl MemDisk {
    /// A zero-filled device of `size` bytes.
    pub fn new(size: usize, sector_size: SectorSize, permissions: Permissions) -> (r: Self)
        ensures
            r.wf(),
            r.reliable(),
            r.contents() == Seq::new(size as nat, |i: int| 0u8),
            r.infos() == (DiskInfosView {
                sector_size: sector_size@,
                disk_size: size as nat,
                permissions,
            }),
    {
        let data = vec![0u8; size];
        assert(data@ =~= Seq::new(size as nat, |i: int| 0u8));
        MemDisk { data, sector_size, permissions }
    }

    /// A device holding `data`.
    pub fn from_bytes(data: Vec<u8>, sector_size: SectorSize, permissions: Permissions) -> (r:
        Self)
        ensures
            r.wf(),
            r.reliable(),
            r.contents() == data@,
            r.infos() == (DiskInfosView {
                sector_size: sector_size@,
                disk_size: data@.len(),
                permissions,
            }),
    {
        MemDisk { data, sector_size, permissions }
    }

    /// Memory is reliable and refuses nothing.
    pub proof fn lemma_memory(&self)
        ensures
            self.reliable(),
            refuses_nothing(self),
    {
    }

    /// The bytes the device holds.
    pub fn bytes(&self) -> (r: &Vec<u8>)
        ensures
            r@ == self.contents(),
    {
        &self.data
    }

    /// Gives the bytes back.
    pub fn into_bytes(self) -> (r: Vec<u8>)
        ensures
            r@ == self.contents(),
    {
        self.data
    }

    fn infos_value(&self) -> (r: DiskInfos)
        ensures
            r@ == self.infos(),
    {
        DiskInfos {
            sector_size: self.sector_size.duplicate(),
            disk_size: self.data.len(),
            permissions: self.permissions,
        }
    }
}

impl Disk for MemDisk {
    closed spec fn infos(&self) -> DiskInfosView {
        DiskInfosView {
            sector_size: self.sector_size@,
            disk_size: self.data@.len(),
            permissions: self.permissions,
        }
    }

    closed spec fn contents(&self) -> Seq<u8> {
        self.data@
    }

    closed spec fn wf(&self) -> bool {
        true
    }

    /// Memory never fails a valid request.
    closed spec fn reliable(&self) -> bool {
        true
    }

    /// Memory refuses nothing beyond the request checks.
    closed spec fn refuses(&self, sector: int, len: int, write: bool) -> bool {
        false
    }

    closed spec fn refusal(&self, sector: int, len: int, write: bool, e: DiskErr) -> bool {
        false
    }

    proof fn lemma_contents_len(&self) {
        assert(self.data@.len() == self.data.len());
    }

    fn read_sector(&self, sector: usize, buf: &mut Vec<u8>) -> (r: Result<(), DiskErr>) {
        let len = buf.len();
        let info = self.infos_value();
        let off = check_request(&info, sector, len, false)?;
        let mut i: usize = 0;
        while i < len
            invariant
                i <= len,
                len == buf@.len(),
                len == old(buf)@.len(),
                off + len <= self.data.len(),
                forall|j: int| 0 <= j < i ==> buf@[j] == self.data@[off + j],
            decreases len - i,
        {
            buf[i] = self.data[off + i];
            i += 1;
        }
        assert(buf@ =~= sector_bytes(self.data@, sector as int, len as int));
        Ok(())
    }

    fn write_sector(&mut self, sector: usize, buf: &[u8]) -> (r: Result<(), DiskErr>) {
        let len = buf.len();
        let info = self.infos_value();
        let off = check_request(&info, sector, len, true)?;
        let mut i: usize = 0;
        while i < len
            invariant
                i <= len,
                len == buf@.len(),
                off + len <= old(self).data.len(),
                self.data.len() == old(self).data.len(),
                self.data@.len() == old(self).data@.len(),
                self.sector_size == old(self).sector_size,
                self.permissions == old(self).permissions,
                forall|j: int| 0 <= j < i ==> self.data@[off + j] == buf@[j],
                forall|j: int|
                    0 <= j < self.data@.len() && !(off <= j < off + i) ==> self.data@[j] == old(
                        self,
                    ).data@[j],
            decreases len - i,
        {
            self.data[off + i] = buf[i];
            i += 1;
        }
        assert(self.data@ =~= splice(old(self).data@, sector * buf@.len(), buf@));
        Ok(())
    }

    fn disk_infos(&self) -> (r: Result<DiskInfos, DiskErr>) {
        Ok(self.infos_value())
    }
}

} // verus!
