use f32ms::fat::{
    cluster_bytes, cluster_offset, entry_target, fat_entry_offset, find_entry, next_cluster, parse_boot_sector, position,
    retarget, short_field, FatError, Geometry,
};

fn boot_sector() -> Vec<u8> {
    let mut b = vec![0u8; 512];
    b[11] = 0x00;
    b[12] = 0x02; // 512 bytes per sector
    b[13] = 8; // sectors per cluster
    b[14] = 32; // reserved sectors
    b[16] = 2; // FATs
    b[36] = 0x10;
    b[37] = 0x27; // 10000 sectors per FAT
    b[44] = 2; // root cluster
    b[510] = 0x55;
    b[511] = 0xAA;
    b
}

fn geometry() -> Geometry {
    parse_boot_sector(&boot_sector()).unwrap()
}

fn entry(name: &[u8; 11], attr: u8, cluster: u32, size: u32) -> Vec<u8> {
    let mut e = vec![0u8; 32];
    e[..11].copy_from_slice(name);
    e[11] = attr;
    e[20..22].copy_from_slice(&((cluster >> 16) as u16).to_le_bytes());
    e[26..28].copy_from_slice(&(cluster as u16).to_le_bytes());
    e[28..32].copy_from_slice(&size.to_le_bytes());
    e
}

#[test]
fn boot_sector_geometry() {
    let g = geometry();
    assert_eq!(g.bytes_per_sector, 512);
    assert_eq!(g.sectors_per_cluster, 8);
    assert_eq!(g.reserved_sectors, 32);
    assert_eq!(g.fats, 2);
    assert_eq!(g.sectors_per_fat, 10000);
    assert_eq!(g.root_cluster, 2);
}

#[test]
fn boot_sector_refusals() {
    let mut b = boot_sector();
    b[511] = 0;
    assert_eq!(parse_boot_sector(&b), Err(FatError::NotFat32));
    let mut b = boot_sector();
    b[22] = 1; // a FAT16 size
    assert_eq!(parse_boot_sector(&b), Err(FatError::NotFat32));
    let mut b = boot_sector();
    b[13] = 3;
    assert_eq!(parse_boot_sector(&b), Err(FatError::NotFat32));
    assert_eq!(parse_boot_sector(&boot_sector()[..100]), Err(FatError::NotFat32));
}

#[test]
fn cluster_arithmetic() {
    let g = geometry();
    assert_eq!(cluster_bytes(&g), 4096);
    assert_eq!(cluster_offset(&g, 2), (32 + 2 * 10000) * 512);
    assert_eq!(cluster_offset(&g, 5), (32 + 2 * 10000) * 512 + 3 * 4096);
    assert_eq!(fat_entry_offset(&g, 7), 32 * 512 + 28);
    assert_eq!(position(&g, &vec![9, 4], 4096 + 64), Some(cluster_offset(&g, 4) + 64));
    assert_eq!(position(&g, &vec![9, 4], 2 * 4096), None);
}

#[test]
fn chain_following() {
    assert_eq!(next_cluster(5), Some(5));
    assert_eq!(next_cluster(0xF000_0005), Some(5));
    assert_eq!(next_cluster(0x0FFF_FFFF), None);
    assert_eq!(next_cluster(0x0FFF_FFF7), None);
    assert_eq!(next_cluster(0), None);
    assert_eq!(next_cluster(1), None);
}

#[test]
fn entry_lookup_skips_deleted_and_long_name_slots() {
    let mut dir = Vec::new();
    dir.extend(entry(b"0       MP3", 0x20, 0, 0).iter().map(|b| if *b == b'0' { 0xE5 } else { *b }));
    dir.extend(entry(b"0       MP3", 0x0F, 0, 0));
    dir.extend(entry(b"0       MP3", 0x20, 77, 1234));
    dir.extend(vec![0u8; 32]);
    dir.extend(entry(b"1       MP3", 0x20, 0, 0));
    let name = *b"0       MP3";
    assert_eq!(find_entry(&dir, &name), Some(64));
    assert_eq!(entry_target(&dir, 64), (77, 1234));
    assert_eq!(find_entry(&dir, b"1       MP3"), None);
}

#[test]
fn retarget_copies_cluster_and_size_only() {
    let e = entry(b"AMP3~1  X  ", 0x20, 0, 0);
    let r = retarget(&e, 0x0012_3456, 4_000_000);
    assert_eq!(entry_target(&r, 0), (0x0012_3456, 4_000_000));
    assert_eq!(&r[..20], &e[..20]);
    assert_eq!(&r[22..26], &e[22..26]);
    let cleared = retarget(&r, 0, 0);
    assert_eq!(cleared, e);
}

#[test]
fn short_names_become_padded_fields() {
    assert_eq!(short_field(b"0.MP3"), Some(b"0       MP3".to_vec()));
    assert_eq!(short_field(b"ORIG"), Some(b"ORIG       ".to_vec()));
    assert_eq!(short_field(b"AMP3~1.X"), Some(b"AMP3~1  X  ".to_vec()));
    assert_eq!(short_field(&[0xE5, b'A', b'.', b'B']), Some(vec![0x05, b'A', 32, 32, 32, 32, 32, 32, b'B', 32, 32]));
    assert_eq!(short_field(b"TOOLONGNAME"), None);
    assert_eq!(short_field(b"A.B.C"), None);
    assert_eq!(short_field(b"A.LONG"), None);
    assert_eq!(short_field(b".X"), None);
    assert_eq!(short_field(b""), None);
}
