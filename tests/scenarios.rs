use partfs::disk::{Disk, DiskErr, Permissions, SectorSize};
use partfs::fat::DirEntry;
use partfs::fat12::Fat12;
use partfs::mbr::{GenericMbr, PartitionInfos, RawMbr};
use partfs::mem_disk::MemDisk;
use partfs::wrappers::{DiskWrapper, OwnedSubDisk};

fn rw() -> Permissions {
    Permissions::read_write()
}

fn formatted_4mib() -> Fat12<MemDisk> {
    let disk = MemDisk::new(1024 * 1024 * 4 + 14, SectorSize::AllOf(vec![512]), rw());
    Fat12::new(disk, 512, 2, 0, None, None).unwrap().unwrap()
}

#[test]
fn mbr_two_partitions_on_1mib() {
    let disk = MemDisk::new(1_048_576, SectorSize::AllOf(vec![512]), rw());
    let mut mbr = GenericMbr::new(disk, None).unwrap();
    assert_eq!(mbr.sector_size(), 512);
    mbr.create_partition(0, 1, 1024, 0x00).unwrap();
    mbr.create_partition(1, 1025, 1022, 0x07).unwrap();
    mbr.write().unwrap();
    let disk = mbr.into_inner();
    let mbr = GenericMbr::read_from_disk(disk, None).unwrap().unwrap();
    assert_eq!(
        mbr.partition_infos(0),
        Some(PartitionInfos { lba_start: 1, size: 1024, sector_size: 512, partition_type: 0x00 })
    );
    assert_eq!(
        mbr.partition_infos(1),
        Some(PartitionInfos { lba_start: 1025, size: 1022, sector_size: 512, partition_type: 0x07 })
    );
    assert_eq!(mbr.partition_start(1), Some(1025));
    assert_eq!(mbr.partition_size(1), Some(1022));
    assert_eq!(mbr.partition_type(1), Some(0x07));
    assert_eq!(mbr.partition_infos(4), None);
}

#[test]
fn mbr_overlap_rejection() {
    let disk = MemDisk::new(1_048_576, SectorSize::AllOf(vec![512]), rw());
    let mut mbr = GenericMbr::new(disk, None).unwrap();
    mbr.create_partition(0, 1, 1024, 0x00).unwrap();
    assert_eq!(mbr.create_partition(1, 1024, 10, 0x07), Err(DiskErr::SpaceAlreadyInUse));
    assert_eq!(mbr.create_partition(1, 1025, 10, 0x07), Ok(()));
}

#[test]
fn mbr_start_zero_is_taken() {
    let disk = MemDisk::new(1_048_576, SectorSize::Any, rw());
    let mut mbr = GenericMbr::new(disk, None).unwrap();
    assert_eq!(mbr.create_partition(0, 0, 10, 0x07), Err(DiskErr::SpaceAlreadyInUse));
    assert_eq!(mbr.create_partition(3, 0, 1, 0x07), Err(DiskErr::SpaceAlreadyInUse));
}

#[test]
fn mbr_errors() {
    let disk = MemDisk::new(1_048_576, SectorSize::AllOf(vec![512]), rw());
    let mut mbr = GenericMbr::new(disk, None).unwrap();
    assert_eq!(mbr.create_partition(4, 1, 10, 0x07), Err(DiskErr::InvalidPartitionIndex));
    assert_eq!(
        mbr.create_partition(0, 1, 2048, 0x07),
        Err(DiskErr::InvalidSectorIndex { found: 2049, max: 2048 })
    );
    assert_eq!(mbr.create_partition(0, 1, 2047, 0x07), Ok(()));
    assert!(matches!(mbr.get_partition(4, rw()), Err(DiskErr::InvalidPartitionIndex)));

    let small = MemDisk::new(4096, SectorSize::AllOf(vec![256]), rw());
    assert!(matches!(GenericMbr::new(small, None), Err(DiskErr::UnsupportedDiskSectorSize)));
}

#[test]
fn mbr_read_without_signature() {
    let disk = MemDisk::new(65536, SectorSize::Any, rw());
    assert!(GenericMbr::read_from_disk(disk, None).unwrap().is_none());
}

#[test]
fn mbr_partition_projection() {
    let disk = MemDisk::new(1_048_576, SectorSize::AllOf(vec![512]), rw());
    let mut mbr = GenericMbr::new(disk, None).unwrap();
    mbr.create_partition(0, 2, 4, 0x07).unwrap();
    let part = mbr.get_partition(0, rw()).unwrap();
    assert_eq!(part.start(), 1024);
    assert_eq!(part.end(), 3072);
    assert!(matches!(mbr.get_partition(0, Permissions::read_only()), Err(DiskErr::Busy)));
    let data = vec![0x5Au8; 512];
    mbr.write_partition_sector(&part, 1, &data).unwrap();
    let mut buf = vec![0u8; 512];
    mbr.read_partition_sector(&part, 1, &mut buf).unwrap();
    assert_eq!(buf, data);
    mbr.release_partition(part);
    let disk = mbr.into_inner();
    assert_eq!(disk.bytes()[1536], 0x5A);
    assert_eq!(disk.bytes()[1535], 0);
}

#[test]
fn mbr_bytes_round_trip() {
    let mut buf = vec![0u8; 512];
    for (i, b) in buf.iter_mut().enumerate() {
        *b = (i * 7 + 3) as u8;
    }
    buf[510] = 0x55;
    buf[511] = 0xAA;
    let m = RawMbr::from_bytes(&buf).unwrap();
    assert_eq!(m.signature(), 0xAA55);
    assert_eq!(m.to_bytes(), buf);
    assert!(RawMbr::from_bytes(&buf[..511]).is_none());
    let e = m.entry(0);
    assert_eq!(e.status, buf[446]);
    assert_eq!(e.lba_first, u32::from_le_bytes([buf[454], buf[455], buf[456], buf[457]]));
}

#[test]
fn fat12_format_4mib() {
    let fs = formatted_4mib();
    let bpb = fs.bios_parameter_block();
    assert_eq!(bpb.bytes_per_sector(), 512);
    assert_eq!(bpb.total_sectors(), 8192);
    assert_eq!(bpb.total_sectors_16(), 8192);
    assert_eq!(bpb.sectors_per_cluster(), 2);
    assert_eq!(bpb.fat_size(), 12);
    assert_eq!(bpb.number_of_fats(), 2);
    assert_eq!(bpb.root_entries_count(), 512);
    assert_eq!(bpb.reserved_sectors_count(), 2);
    assert_eq!(bpb.media(), 0xF8);
    assert_eq!(bpb.signature(), 0xAA55);
    assert!(bpb.is_valid());
    assert_eq!(fs.clusters_count(), 4067);
    let bytes = bpb.to_bytes();
    assert_eq!(&bytes[54..62], b"FAT12   ");
    assert_eq!(&bytes[43..54], b"NO NAME    ");

    let disk = fs.into_inner();
    assert_eq!(&disk.bytes()[..512], &bytes[..]);
    let again = Fat12::read_from_disk(disk).unwrap().unwrap();
    assert_eq!(again.bios_parameter_block().to_bytes(), bytes);
}

#[test]
fn fat12_not_formatted() {
    let disk = MemDisk::new(1024 * 1024, SectorSize::AllOf(vec![512]), rw());
    assert!(Fat12::new(disk, 17, 2, 0, None, None).unwrap().is_none());
    let disk = MemDisk::new(1024 * 1024, SectorSize::AllOf(vec![512]), rw());
    assert!(Fat12::new(disk, 512, 2, 0, Some(500), None).unwrap().is_none());
    let disk = MemDisk::new(1024 * 1024, SectorSize::AllOf(vec![512]), rw());
    assert!(Fat12::new(disk, 512, 2, 0, None, Some(3)).unwrap().is_none());
    let disk = MemDisk::new(1024 * 1024, SectorSize::AllOf(vec![512]), rw());
    assert!(Fat12::read_from_disk(disk).unwrap().is_none());
}

#[test]
fn fat12_entry_round_trip() {
    let mut fs = formatted_4mib();
    fs.set_fat_entry(2, 0xABC).unwrap();
    fs.set_fat_entry(3, 0x123).unwrap();
    assert_eq!(fs.get_fat_entry(2), Ok(0xABC));
    assert_eq!(fs.get_fat_entry(3), Ok(0x123));
    assert_eq!(fs.get_fat_entry(4), Ok(0));
    let disk = fs.into_inner();
    let fat0 = 2 * 512;
    assert_eq!(&disk.bytes()[fat0 + 3..fat0 + 6], &[0xBC, 0x3A, 0x12]);
    let fat1 = (2 + 12) * 512;
    assert_eq!(&disk.bytes()[fat1 + 3..fat1 + 6], &[0xBC, 0x3A, 0x12]);
}

#[test]
fn fat12_entry_neighbours_kept() {
    let mut fs = formatted_4mib();
    fs.set_fat_entry(10, 0xFFF).unwrap();
    fs.set_fat_entry(12, 0xFFF).unwrap();
    fs.set_fat_entry(11, 0x000).unwrap();
    assert_eq!(fs.get_fat_entry(10), Ok(0xFFF));
    assert_eq!(fs.get_fat_entry(11), Ok(0x000));
    assert_eq!(fs.get_fat_entry(12), Ok(0xFFF));
    fs.set_fat_entry(11, 0x5A5).unwrap();
    assert_eq!(fs.get_fat_entry(10), Ok(0xFFF));
    assert_eq!(fs.get_fat_entry(11), Ok(0x5A5));
    assert_eq!(fs.get_fat_entry(12), Ok(0xFFF));
}

#[test]
fn fat12_entry_bounds() {
    let mut fs = formatted_4mib();
    let cc = fs.clusters_count();
    assert_eq!(fs.get_fat_entry(cc), Err(DiskErr::IndexOutOfRange));
    assert_eq!(fs.set_fat_entry(cc, 1), Err(DiskErr::IndexOutOfRange));
    fs.set_fat_entry(cc - 1, 0x9AB).unwrap();
    assert_eq!(fs.get_fat_entry(cc - 1), Ok(0x9AB));
    // Entry 341 begins at byte 511 of the first FAT sector and ends in the next one.
    fs.set_fat_entry(341, 0xDEF).unwrap();
    fs.set_fat_entry(340, 0x123).unwrap();
    fs.set_fat_entry(342, 0x456).unwrap();
    assert_eq!(fs.get_fat_entry(341), Ok(0xDEF));
    assert_eq!(fs.get_fat_entry(340), Ok(0x123));
    assert_eq!(fs.get_fat_entry(342), Ok(0x456));
}

#[test]
fn fat12_free_clusters() {
    let mut fs = formatted_4mib();
    assert_eq!(fs.find_free_clusters(3), Ok(Some(vec![2, 3, 4])));
    fs.set_fat_entry(3, 0xFFF).unwrap();
    assert_eq!(fs.find_free_clusters(3), Ok(Some(vec![2, 4, 5])));
    assert_eq!(fs.find_free_clusters(0), Ok(Some(vec![])));
    assert_eq!(fs.find_free_clusters(4067), Ok(None));
    assert_eq!(fs.find_free_clusters(4064).unwrap().unwrap().len(), 4064);
}

#[test]
fn fat12_root_dir_entries() {
    let mut fs = formatted_4mib();
    let e = DirEntry {
        name: *b"HELLO   TXT",
        attributes: 0x20,
        reserved: 0,
        creation_time_tenth: 7,
        creation_time: 0x1234,
        creation_date: 0x5678,
        last_access_date: 0x9ABC,
        first_cluster_high: 0,
        write_time: 0xDEF0,
        write_date: 0x1357,
        first_cluster_low: 5,
        file_size: 3000,
    };
    fs.set_root_dir_entry(17, e).unwrap();
    assert_eq!(fs.get_root_dir_entry(17), Ok(e));
    assert_eq!(fs.get_root_dir_entry(16).unwrap().name, [0u8; 11]);
    assert_eq!(fs.get_root_dir_entry(512), Err(DiskErr::IndexOutOfRange));
    assert_eq!(fs.set_root_dir_entry(512, e), Err(DiskErr::IndexOutOfRange));
    let disk = fs.into_inner();
    let at = (2 + 2 * 12) * 512 + 17 * 32;
    assert_eq!(&disk.bytes()[at..at + 11], b"HELLO   TXT");
}

#[test]
fn dir_entry_round_trip() {
    let e = DirEntry {
        name: *b"A       BIN",
        attributes: 1,
        reserved: 2,
        creation_time_tenth: 3,
        creation_time: 0x0405,
        creation_date: 0x0607,
        last_access_date: 0x0809,
        first_cluster_high: 0x0A0B,
        write_time: 0x0C0D,
        write_date: 0x0E0F,
        first_cluster_low: 0x1011,
        file_size: 0x12131415,
    };
    let bytes = e.to_bytes();
    assert_eq!(bytes.len(), 32);
    assert_eq!(&bytes[28..32], &[0x15, 0x14, 0x13, 0x12]);
    assert_eq!(&bytes[14..16], &[0x05, 0x04]);
    assert_eq!(DirEntry::from_bytes(&bytes, 0), e);
    assert_eq!(e.cluster_value(), 0x0A0B * 65536 + 0x1011);
}

#[test]
fn fat12_chain_to_file() {
    let mut fs = formatted_4mib();
    fs.set_fat_entry(5, 6).unwrap();
    fs.set_fat_entry(6, 9).unwrap();
    fs.set_fat_entry(9, 0xFFF).unwrap();
    let (size, file) = fs.get_file(5, Permissions::read_only()).unwrap();
    let f = 2 + 2 * 12 + 32;
    assert_eq!(size, 3 * 1024);
    assert_eq!(
        file.parts(),
        &vec![((f + 3 * 2) * 512, (f + 5 * 2) * 512), ((f + 7 * 2) * 512, (f + 8 * 2) * 512)]
    );
    fs.release_file(file);
}

#[test]
fn fat12_chain_content() {
    let fs = formatted_4mib();
    let mut disk = fs.into_inner();
    let f = 2 + 2 * 12 + 32;
    for (k, cl) in [5usize, 6, 9].iter().enumerate() {
        for s in 0..2 {
            let sector = f + (cl - 2) * 2 + s;
            let data = vec![(k * 2 + s + 1) as u8; 512];
            disk.write_sector(sector, &data).unwrap();
        }
    }
    let mut fs = Fat12::read_from_disk(disk).unwrap().unwrap();
    fs.set_fat_entry(5, 6).unwrap();
    fs.set_fat_entry(6, 9).unwrap();
    fs.set_fat_entry(9, 0xFF8).unwrap();
    let (size, file) = fs.get_file(5, Permissions::read_only()).unwrap();
    assert_eq!(size, 3072);
    for sector in 0..6 {
        let mut buf = vec![0u8; 512];
        fs.read_file_sector(&file, sector, &mut buf).unwrap();
        assert_eq!(buf, vec![(sector + 1) as u8; 512]);
    }
    let mut buf = vec![0u8; 512];
    assert_eq!(
        fs.read_file_sector(&file, 6, &mut buf),
        Err(DiskErr::InvalidSectorIndex { found: 6, max: 6 })
    );
    let mut big = vec![0u8; 2048];
    assert!(matches!(
        fs.read_file_sector(&file, 1, &mut big),
        Err(DiskErr::InvalidSectorSize { found: 2048, .. })
    ));
    fs.release_file(file);
}

#[test]
fn fat12_corrupt_chain() {
    let mut fs = formatted_4mib();
    fs.set_fat_entry(5, 6).unwrap();
    assert!(matches!(fs.get_file(5, Permissions::read_only()), Err(DiskErr::IOErr)));
    fs.set_fat_entry(6, 5).unwrap();
    assert!(matches!(fs.get_file(5, Permissions::read_only()), Err(DiskErr::IOErr)));
    fs.set_fat_entry(6, 0xFF7).unwrap();
    assert!(matches!(fs.get_file(5, Permissions::read_only()), Err(DiskErr::IOErr)));
    assert!(matches!(fs.get_file(1, Permissions::read_only()), Err(DiskErr::IndexOutOfRange)));
}

#[test]
fn borrow_semantics_2048() {
    let disk = MemDisk::new(2048, SectorSize::AllOf(vec![512, 1024]), rw());
    let mut w = DiskWrapper::new(disk).unwrap();
    let a = w.subdisk(512, 2048, rw()).unwrap();
    assert!(matches!(w.subdisk(1024, 2048, rw()), Err(DiskErr::Busy)));
    w.release(a);
    let b = w.subdisk(1024, 2048, rw()).unwrap();
    assert!(matches!(w.subdisk(512, 2048, rw()), Err(DiskErr::Busy)));
    w.release(b);
    assert!(!w.is_w_borrowed(0, 2048));
}

#[test]
fn borrow_tightness() {
    let disk = MemDisk::new(4096, SectorSize::Any, rw());
    let mut w = DiskWrapper::new(disk).unwrap();
    let a = w.subdisk(100, 200, Permissions::write_only()).unwrap();
    assert!(matches!(w.subdisk(150, 250, Permissions::read_only()), Err(DiskErr::Busy)));
    assert!(matches!(w.subdisk(0, 101, Permissions::write_only()), Err(DiskErr::Busy)));
    // A range that strictly contains the borrow overlaps it too.
    assert!(matches!(w.subdisk(50, 300, Permissions::read_only()), Err(DiskErr::Busy)));
    let b = w.subdisk(200, 300, rw()).unwrap();
    let c = w.subdisk(0, 100, Permissions::read_only()).unwrap();
    let d = w.subdisk(0, 50, Permissions::read_only()).unwrap();
    assert!(matches!(w.subdisk(40, 60, Permissions::write_only()), Err(DiskErr::Busy)));
    assert!(matches!(w.subdisk(4000, 4097, Permissions::read_only()), Err(DiskErr::InvalidDiskSize)));
    w.release(a);
    w.release(b);
    w.release(c);
    w.release(d);
    assert!(!w.is_r_borrowed(0, 4096));
    assert!(!w.is_w_borrowed(0, 4096));
}

#[test]
fn sub_device_alignment() {
    let disk = MemDisk::new(4096, SectorSize::Any, rw());
    let mut w = DiskWrapper::new(disk).unwrap();
    let s = w.subdisk(100, 1124, rw()).unwrap();
    let mut buf = vec![0u8; 512];
    assert!(matches!(
        w.read_sub_sector(&s, 0, &mut buf),
        Err(DiskErr::InvalidSectorSize { found: 512, start: 100, .. })
    ));
    let mut small = vec![0u8; 4];
    assert_eq!(w.read_sub_sector(&s, 0, &mut small), Ok(()));
    w.release(s);
}

#[test]
fn sub_device_io() {
    let disk = MemDisk::new(4096, SectorSize::AllOf(vec![512]), rw());
    let mut w = DiskWrapper::new(disk).unwrap();
    let s = w.subdisk(1024, 3072, rw()).unwrap();
    let data = vec![9u8; 512];
    w.write_sub_sector(&s, 2, &data).unwrap();
    let mut buf = vec![0u8; 512];
    assert_eq!(w.read_direct(4, &mut buf), Err(DiskErr::Busy));
    w.read_sub_sector(&s, 2, &mut buf).unwrap();
    assert_eq!(buf, data);
    assert_eq!(
        w.read_sub_sector(&s, 4, &mut buf),
        Err(DiskErr::InvalidSectorIndex { found: 4, max: 4 })
    );
    let ro = w.subdisk(0, 512, Permissions::read_only()).unwrap();
    assert_eq!(
        w.write_sub_sector(&ro, 0, &data),
        Err(DiskErr::InvalidPermission { disk_permissions: Permissions::read_only() })
    );
    assert_eq!(w.write_direct(0, &data), Err(DiskErr::Busy));
    w.release(ro);
    assert_eq!(w.write_direct(0, &data), Ok(()));
    let info = s.disk_infos();
    assert_eq!(info.disk_size, 2048);
    w.release(s);
    let disk = w.into_inner();
    assert_eq!(disk.bytes()[2048], 9);
}

#[test]
fn unreachable_sub_device() {
    let mut w1 = DiskWrapper::new(MemDisk::new(4096, SectorSize::Any, rw())).unwrap();
    let w2 = DiskWrapper::new(MemDisk::new(4096, SectorSize::Any, rw())).unwrap();
    let s = w1.subdisk(0, 512, Permissions::read_only()).unwrap();
    let mut buf = vec![0u8; 512];
    assert_eq!(w2.read_sub_sector(&s, 0, &mut buf), Err(DiskErr::UnreachableDisk));
    w1.release(s);
}

#[test]
fn fragmented_lending() {
    let mut w = DiskWrapper::new(MemDisk::new(8192, SectorSize::Any, rw())).unwrap();
    assert!(matches!(
        w.fragmented_subdisk(vec![(0, 512), (256, 1024)], Permissions::read_only()),
        Err(DiskErr::Busy)
    ));
    assert!(matches!(
        w.fragmented_subdisk(vec![(0, 512), (8000, 9000)], Permissions::read_only()),
        Err(DiskErr::InvalidDiskSize)
    ));
    let f = w.fragmented_subdisk(vec![(1024, 1536), (4096, 5120)], rw()).unwrap();
    assert_eq!(f.size(), 1536);
    assert!(matches!(w.subdisk(5000, 6000, Permissions::read_only()), Err(DiskErr::Busy)));
    w.release_fragmented(f);
    assert!(!w.is_w_borrowed(0, 8192));
}

#[test]
fn device_errors() {
    let mut d = MemDisk::new(2048, SectorSize::AllOf(vec![512]), Permissions::write_only());
    let mut buf = vec![0u8; 512];
    assert_eq!(
        d.read_sector(0, &mut buf),
        Err(DiskErr::InvalidPermission { disk_permissions: Permissions::write_only() })
    );
    assert_eq!(d.write_sector(4, &buf), Err(DiskErr::InvalidSectorIndex { found: 4, max: 4 }));
    assert!(matches!(d.write_sector(0, &buf[..256]), Err(DiskErr::InvalidSectorSize { found: 256, .. })));
    assert_eq!(d.write_sector(3, &buf), Ok(()));
}

#[test]
fn sector_size_support() {
    let r = SectorSize::InRanges(vec![(512, 1025)]);
    assert!(!r.is_supported(512, 511));
    assert!(r.is_supported(512, 512));
    assert!(r.is_supported(512, 4096));
    assert!(!r.is_supported(1025, 4096));
    let e = SectorSize::AnyExpectedRanges(vec![(0, 512), (513, 1024)]);
    assert_eq!(e.minimal_ge(0, 4096), Some(512));
    assert_eq!(e.minimal_ge(513, 4096), Some(1024));
    assert_eq!(e.minimal_ge(513, 1000), None);
    let l = SectorSize::AllOf(vec![4096, 1024, 2048]);
    assert_eq!(l.minimal_ge(512, 1 << 20), Some(1024));
    assert_eq!(l.minimal_ge(512, 1500), Some(1024));
    assert_eq!(l.minimal_ge(512, 1000), None);
    let x = SectorSize::AnyExpected(vec![512, 513]);
    assert_eq!(x.minimal_ge(512, 4096), Some(514));
    assert!(SectorSize::Any.is_supported(7, 7));
    assert!(!SectorSize::Any.is_supported(8, 7));
    let ir = SectorSize::InRanges(vec![(2048, 4096), (600, 700)]);
    assert_eq!(ir.minimal_ge(512, 8192), Some(600));
}

#[test]
fn fat12_inside_mbr_partition() {
    let disk = MemDisk::new(8 * 1024 * 1024, SectorSize::AllOf(vec![512]), rw());
    let mut mbr = GenericMbr::new(disk, None).unwrap();
    mbr.create_partition(0, 2048, 8192, 0x01).unwrap();
    mbr.write().unwrap();
    let sub = mbr.get_partition(0, rw()).unwrap();
    let part = OwnedSubDisk::new(mbr.into_tracker(), sub).unwrap();
    assert_eq!(part.disk_infos().unwrap().disk_size, 8192 * 512);
    let mut fs = Fat12::new(part, 512, 2, 0, None, None).unwrap().unwrap();
    assert_eq!(fs.bios_parameter_block().total_sectors(), 8192);
    fs.set_fat_entry(2, 0xFFF).unwrap();
    let part = fs.into_inner();
    let fs = Fat12::read_from_disk(part).unwrap().unwrap();
    assert_eq!(fs.get_fat_entry(2), Ok(0xFFF));
    let (mut tracker, sub) = fs.into_inner().into_parts();
    tracker.release(sub);
    let disk = tracker.into_inner();
    let base = 2048 * 512;
    assert_eq!(&disk.bytes()[base + 510..base + 512], &[0x55, 0xAA]);
    assert_eq!(&disk.bytes()[510..512], &[0x55, 0xAA]);
    assert_eq!(disk.bytes()[base + 2 * 512 + 3], 0xFF);
    let mbr = GenericMbr::read_from_disk(disk, None).unwrap().unwrap();
    assert_eq!(mbr.partition_start(0), Some(2048));
}

#[test]
fn borrow_sequence_keeps_writers_apart() {
    let mut w = DiskWrapper::new(MemDisk::new(1 << 16, SectorSize::Any, rw())).unwrap();
    let mut held = Vec::new();
    for k in 0..16usize {
        let start = (k * 37) % 60 * 1000;
        let mode = if k % 3 == 0 { Permissions::read_only() } else { rw() };
        if let Ok(s) = w.subdisk(start, start + 1500, mode) {
            held.push(s);
        }
        if k % 4 == 3 {
            let s = held.remove(0);
            w.release(s);
        }
    }
    for i in 0..held.len() {
        for j in 0..held.len() {
            let (a, b) = (&held[i], &held[j]);
            let overlap = a.start() < b.end() && b.start() < a.end();
            if i != j && overlap {
                assert!(!a.permissions().write && !b.permissions().write);
            }
        }
    }
    for s in held {
        w.release(s);
    }
    assert!(!w.is_r_borrowed(0, 1 << 16));
    assert!(!w.is_w_borrowed(0, 1 << 16));
}

#[test]
fn fat12_file_write_lands_in_clusters() {
    let mut fs = formatted_4mib();
    fs.set_fat_entry(5, 9).unwrap();
    fs.set_fat_entry(9, 0xFFF).unwrap();
    let (size, file) = fs.get_file(5, rw()).unwrap();
    assert_eq!(size, 2048);
    assert!(matches!(fs.get_file(9, Permissions::read_only()), Err(DiskErr::Busy)));
    let data = vec![0xC3u8; 512];
    fs.write_file_sector(&file, 2, &data).unwrap();
    let mut buf = vec![0u8; 512];
    fs.read_file_sector(&file, 2, &mut buf).unwrap();
    assert_eq!(buf, data);
    fs.release_file(file);
    let disk = fs.into_inner();
    let f = 2 + 2 * 12 + 32;
    let at = (f + (9 - 2) * 2) * 512;
    assert_eq!(&disk.bytes()[at..at + 512], &data[..]);
    assert_eq!(disk.bytes()[at - 1], 0);
}

#[test]
fn mbr_boot_code_kept() {
    let disk = MemDisk::new(65536, SectorSize::Any, rw());
    let mut mbr = GenericMbr::new(disk, Some(512)).unwrap();
    let mut code = [0u8; 446];
    code[0] = 0xFA;
    code[445] = 0x77;
    mbr.set_boot_code(code);
    mbr.write().unwrap();
    let disk = mbr.into_inner();
    assert_eq!(disk.bytes()[0], 0xFA);
    assert_eq!(disk.bytes()[445], 0x77);
    assert_eq!(&disk.bytes()[510..512], &[0x55, 0xAA]);
    let mbr = GenericMbr::read_from_disk(disk, Some(1024)).unwrap().unwrap();
    assert_eq!(mbr.sector_size(), 1024);
}

#[test]
fn refusals_leave_buffer_and_device_untouched() {
    let disk = MemDisk::new(4096, SectorSize::AllOf(vec![512]), rw());
    let mut w = DiskWrapper::new(disk).unwrap();
    let s = w.subdisk(1024, 2048, rw()).unwrap();
    let mut buf = vec![7u8; 512];
    assert_eq!(w.read_direct(2, &mut buf), Err(DiskErr::Busy));
    assert_eq!(buf, vec![7u8; 512]);
    assert_eq!(w.read_sector(2, &mut buf), Err(DiskErr::Busy));
    assert_eq!(buf, vec![7u8; 512]);
    assert_eq!(w.write_sector(3, &buf), Err(DiskErr::Busy));
    let mut big = vec![7u8; 1024];
    assert!(matches!(w.read_sub_sector(&s, 0, &mut big), Err(DiskErr::InvalidSectorSize { .. })));
    assert_eq!(big, vec![7u8; 1024]);
    assert_eq!(
        w.write_sub_sector(&s, 2, &buf),
        Err(DiskErr::InvalidSectorIndex { found: 2, max: 2 })
    );
    w.release(s);
    let disk = w.into_inner();
    assert!(disk.bytes().iter().all(|b| *b == 0));
}

#[test]
fn owned_sub_device_refusals() {
    let disk = MemDisk::new(8192, SectorSize::Any, rw());
    let mut w = DiskWrapper::new(disk).unwrap();
    let s = w.subdisk(100, 1124, rw()).unwrap();
    let mut o = OwnedSubDisk::new(w, s).unwrap();
    let mut buf = vec![3u8; 512];
    assert!(matches!(
        o.read_sector(0, &mut buf),
        Err(DiskErr::InvalidSectorSize { found: 512, start: 100, .. })
    ));
    assert_eq!(buf, vec![3u8; 512]);
    let small = vec![9u8; 4];
    assert_eq!(o.write_sector(1, &small), Ok(()));
    let (mut w, s) = o.into_parts();
    w.release(s);
    let disk = w.into_inner();
    assert_eq!(&disk.bytes()[104..108], &[9, 9, 9, 9]);
}

#[test]
fn mbr_end_overflow_reported() {
    let disk = MemDisk::new(1_048_576, SectorSize::AllOf(vec![512]), rw());
    let mut mbr = GenericMbr::new(disk, None).unwrap();
    assert_eq!(
        mbr.create_partition(2, usize::MAX, 2, 0x07),
        Err(DiskErr::InvalidSectorIndex { found: usize::MAX, max: 2048 })
    );
    assert_eq!(mbr.partition_size(2), Some(0));
}
