//! FAT32 on-disk structures that a hardlink touches: the boot sector's
//! geometry, cluster chains, and the 32-byte short directory entries whose
//! first-cluster and size fields a hardlink copies.
use vstd::prelude::*;

verus! {

/// Little-endian 16-bit value at `off`.
pub open spec fn le16(b: Seq<u8>, off: int) -> int {
    b[off] + 256 * b[off + 1]
}

/// Little-endian 32-bit value at `off`.
pub open spec fn le32(b: Seq<u8>, off: int) -> int {
    le16(b, off) + 65536 * le16(b, off + 2)
}

/// The layout of a FAT32 volume, from its boot sector.
#[derive(Clone, Copy, Debug, PartialEq, Eq)]
pub struct Geometry {
    pub bytes_per_sector: u16,
    pub sectors_per_cluster: u8,
    pub reserved_sectors: u16,
    pub fats: u8,
    pub sectors_per_fat: u32,
    pub root_cluster: u32,
}

/// Why a byte stream is not taken for a FAT32 volume.
#[derive(Clone, Copy, Debug, PartialEq, Eq)]
pub enum FatError {
    NotFat32,
}

/// A power of two between 1 and 128.
pub open spec fn is_cluster_factor(n: int) -> bool {
    n == 1 || n == 2 || n == 4 || n == 8 || n == 16 || n == 32 || n == 64 || n == 128
}

/// The boot sector `b` describes a FAT32 volume: it is signed, its sector
/// size is 512 to 4096 bytes, its cluster size a power of two of sectors, it
/// has reserved sectors and a FAT, no fixed root directory and no 16-bit FAT
/// size, and its root directory starts at a data cluster.
pub open spec fn is_fat32_boot_sector(b: Seq<u8>) -> bool {
    &&& b.len() >= 512
    &&& b[510] == 0x55 && b[511] == 0xAA
    &&& (le16(b, 11) == 512 || le16(b, 11) == 1024 || le16(b, 11) == 2048 || le16(b, 11) == 4096)
    &&& is_cluster_factor(b[13] as int)
    &&& le16(b, 14) >= 1
    &&& b[16] >= 1
    &&& le16(b, 17) == 0
    &&& le16(b, 22) == 0
    &&& le32(b, 36) >= 1
    &&& le32(b, 44) >= 2
}

/// The geometry that the boot sector `b` gives.
pub open spec fn geometry_of(b: Seq<u8>) -> Geometry {
    Geometry {
        bytes_per_sector: le16(b, 11) as u16,
        sectors_per_cluster: b[13],
        reserved_sectors: le16(b, 14) as u16,
        fats: b[16],
        sectors_per_fat: le32(b, 36) as u32,
        root_cluster: le32(b, 44) as u32,
    }
}

fn read_le16(b: &[u8], off: usize) -> (r: u16)
    requires
        off + 2 <= b.len(),
    ensures
        r == le16(b@, off as int),
{
    b[off] as u16 + 256 * b[off + 1] as u16
}

fn read_le32(b: &[u8], off: usize) -> (r: u32)
    requires
        off + 4 <= b.len(),
    ensures
        r == le32(b@, off as int),
{
    let lo = read_le16(b, off);
    let hi = read_le16(b, off + 2);
    lo as u32 + 65536 * hi as u32
}

/// Reads the geometry of a FAT32 volume from its first sector.
pub fn parse_boot_sector(b: &[u8]) -> (r: Result<Geometry, FatError>)
    ensures
        is_fat32_boot_sector(b@) ==> r == Ok::<Geometry, FatError>(geometry_of(b@)),
        !is_fat32_boot_sector(b@) ==> r == Err::<Geometry, FatError>(FatError::NotFat32),
{
    if b.len() < 512 || b[510] != 0x55 || b[511] != 0xAA {
        return Err(FatError::NotFat32);
    }
    let bps = read_le16(b, 11);
    let spc = b[13];
    let reserved = read_le16(b, 14);
    let fats = b[16];
    let spf = read_le32(b, 36);
    let root = read_le32(b, 44);
    let ok = (bps == 512 || bps == 1024 || bps == 2048 || bps == 4096)
        && (spc == 1 || spc == 2 || spc == 4 || spc == 8 || spc == 16 || spc == 32 || spc == 64 || spc == 128)
        && reserved >= 1 && fats >= 1 && read_le16(b, 17) == 0 && read_le16(b, 22) == 0 && spf >= 1 && root >= 2;
    if ok {
        Ok(Geometry {
            bytes_per_sector: bps,
            sectors_per_cluster: spc,
            reserved_sectors: reserved,
            fats,
            sectors_per_fat: spf,
            root_cluster: root,
        })
    } else {
        Err(FatError::NotFat32)
    }
}

/// Bytes in one cluster.
pub open spec fn cluster_bytes_spec(g: Geometry) -> int {
    g.sectors_per_cluster * g.bytes_per_sector
}

/// Byte offset, from the start of the volume, of data cluster `c` (data
/// clusters are numbered from 2).
pub open spec fn cluster_offset_spec(g: Geometry, c: int) -> int {
    (g.reserved_sectors + g.fats * g.sectors_per_fat) * g.bytes_per_sector + (c - 2) * cluster_bytes_spec(g)
}

/// Byte offset of the FAT entry of cluster `c`.
pub open spec fn fat_entry_offset_spec(g: Geometry, c: int) -> int {
    g.reserved_sectors * g.bytes_per_sector + 4 * c
}

/// Bytes in one cluster.
pub fn cluster_bytes(g: &Geometry) -> (r: u32)
    ensures
        r == cluster_bytes_spec(*g),
{
    assert(g.sectors_per_cluster * g.bytes_per_sector <= 255 * 65535) by (nonlinear_arith)
        requires
            g.sectors_per_cluster <= 255,
            g.bytes_per_sector <= 65535,
    ;
    g.sectors_per_cluster as u32 * g.bytes_per_sector as u32
}

/// Byte offset of data cluster `c`.
pub fn cluster_offset(g: &Geometry, c: u32) -> (r: u64)
    requires
        c >= 2,
    ensures
        r == cluster_offset_spec(*g, c as int),
{
    assert(g.fats * g.sectors_per_fat <= 255 * 0xFFFF_FFFFu64) by (nonlinear_arith)
        requires
            g.fats <= 255,
            g.sectors_per_fat <= 0xFFFF_FFFFu64,
    ;
    let start_sectors: u64 = g.reserved_sectors as u64 + g.fats as u64 * g.sectors_per_fat as u64;
    assert(start_sectors * g.bytes_per_sector <= 0x100_0000_0000 * 65535) by (nonlinear_arith)
        requires
            start_sectors <= 0x100_0000_0000,
            g.bytes_per_sector <= 65535,
    ;
    let cb = cluster_bytes(g);
    assert(cb <= 255 * 65535) by (nonlinear_arith)
        requires
            cb == g.sectors_per_cluster * g.bytes_per_sector,
            g.sectors_per_cluster <= 255,
            g.bytes_per_sector <= 65535,
    ;
    assert((c - 2) * cb <= 0xFFFF_FFFFu64 * (255 * 65535)) by (nonlinear_arith)
        requires
            c - 2 <= 0xFFFF_FFFFu64,
            cb <= 255 * 65535,
            c >= 2,
    ;
    start_sectors * g.bytes_per_sector as u64 + (c as u64 - 2) * cb as u64
}

/// Byte offset of the FAT entry of cluster `c`.
pub fn fat_entry_offset(g: &Geometry, c: u32) -> (r: u64)
    ensures
        r == fat_entry_offset_spec(*g, c as int),
{
    assert(g.reserved_sectors * g.bytes_per_sector <= 65535 * 65535) by (nonlinear_arith)
        requires
            g.reserved_sectors <= 65535,
            g.bytes_per_sector <= 65535,
    ;
    g.reserved_sectors as u64 * g.bytes_per_sector as u64 + 4 * c as u64
}

/// The cluster that follows, given the raw FAT entry of a cluster: the low 28
/// bits, when they name a data cluster; none at the end of a chain, on a free
/// or bad cluster.
pub open spec fn next_cluster_spec(raw: u32) -> Option<u32> {
    let v = raw % 0x1000_0000;
    if 2 <= v < 0x0FFF_FFF7 {
        Some(v as u32)
    } else {
        None
    }
}

/// The cluster after the one whose FAT entry is `raw`.
pub fn next_cluster(raw: u32) -> (r: Option<u32>)
    ensures
        r == next_cluster_spec(raw),
{
    let v = raw % 0x1000_0000;
    if 2 <= v && v < 0x0FFF_FFF7 {
        Some(v)
    } else {
        None
    }
}

/// Byte offset, from the start of the volume, of byte `off` of the directory
/// whose clusters are `chain`.
pub open spec fn position_spec(g: Geometry, chain: Seq<u32>, off: int) -> int {
    cluster_offset_spec(g, chain[off / cluster_bytes_spec(g)] as int) + off % cluster_bytes_spec(g)
}

/// Where byte `off` of a directory read from the clusters `chain` lies on
/// the volume.
pub fn position(g: &Geometry, chain: &Vec<u32>, off: u64) -> (r: Option<u64>)
    requires
        forall|i: int| 0 <= i < chain@.len() ==> chain@[i] >= 2,
    ensures
        r is Some <==> cluster_bytes_spec(*g) > 0 && (off as int) / cluster_bytes_spec(*g) < chain@.len(),
        r is Some ==> r->Some_0 == position_spec(*g, chain@, off as int),
{
    let cb = cluster_bytes(g) as u64;
    if cb == 0 {
        return None;
    }
    let k = off / cb;
    if k >= chain.len() as u64 {
        return None;
    }
    let base = cluster_offset(g, chain[k as usize]);
    assert(cb <= 255 * 65535) by (nonlinear_arith)
        requires
            cb == g.sectors_per_cluster * g.bytes_per_sector,
            g.sectors_per_cluster <= 255,
            g.bytes_per_sector <= 65535,
    ;
    assert(base + off % cb <= 0xFFFF_FFFF_FFFF_FFFFu64) by {
        assert(base <= 0x100_0000_0000 * 65535 + 0xFFFF_FFFFu64 * (255 * 65535)) by (nonlinear_arith)
            requires
                base == cluster_offset_spec(*g, chain@[k as int] as int),
                g.reserved_sectors <= 65535,
                g.fats <= 255,
                g.sectors_per_fat <= 0xFFFF_FFFFu64,
                g.bytes_per_sector <= 65535,
                g.sectors_per_cluster <= 255,
                chain@[k as int] >= 2,
                chain@[k as int] <= 0xFFFF_FFFFu64,
        ;
    }
    Some(base + off % cb)
}

/// Size of a directory entry in bytes.
pub open spec fn entry_len() -> int {
    32
}

/// The entry at `off` marks the end of the directory.
pub open spec fn is_end(dir: Seq<u8>, off: int) -> bool {
    dir[off] == 0
}

/// The entry at `off` is a live short entry: not deleted, not the end, and
/// not a long-name slot.
pub open spec fn is_short_entry(dir: Seq<u8>, off: int) -> bool {
    dir[off] != 0 && dir[off] != 0xE5 && dir[off + 11] % 64 != 0x0F
}

/// The short entry at `off` has the 11-byte name `name`.
pub open spec fn has_short_name(dir: Seq<u8>, off: int, name: Seq<u8>) -> bool {
    dir.subrange(off, off + 11) == name
}

/// The slot `k` holds the entry named `name` that a lookup stops at: no slot
/// before it ends the directory or holds that name.
pub open spec fn is_found_slot(dir: Seq<u8>, name: Seq<u8>, k: int) -> bool {
    &&& 0 <= k && 32 * k + 32 <= dir.len()
    &&& is_short_entry(dir, 32 * k) && has_short_name(dir, 32 * k, name)
    &&& forall|j: int| 0 <= j < k ==> !is_end(dir, #[trigger] (32 * j)) && !(is_short_entry(dir, 32 * j) && has_short_name(dir, 32 * j, name))
}

/// Byte offset of the short entry named `name` (11 bytes, padded) in the
/// directory bytes `dir`; none if the directory ends first.
pub fn find_entry(dir: &[u8], name: &[u8]) -> (r: Option<usize>)
    requires
        name@.len() == 11,
    ensures
        r is Some ==> r->Some_0 % 32 == 0 && is_found_slot(dir@, name@, r->Some_0 as int / 32),
        r is None ==> forall|k: int| !is_found_slot(dir@, name@, k),
{
    let slots = dir.len() / 32;
    let mut k: usize = 0;
    while k < slots
        invariant
            slots == dir@.len() / 32,
            k <= slots,
            name@.len() == 11,
            forall|j: int| 0 <= j < k ==> !is_end(dir@, #[trigger] (32 * j)) && !(is_short_entry(dir@, 32 * j) && has_short_name(dir@, 32 * j, name@)),
        decreases slots - k,
    {
        assert(32 * k + 32 <= dir.len()) by (nonlinear_arith)
            requires
                k < slots,
                slots == dir@.len() / 32,
        ;
        let s = 32 * k;
        if dir[s] == 0 {
            assert forall|kk: int| !is_found_slot(dir@, name@, kk) by {
                if is_found_slot(dir@, name@, kk) && kk > k {
                    assert(is_end(dir@, 32 * (k as int)));
                }
            }
            return None;
        }
        if dir[s] != 0xE5 && dir[s + 11] % 64 != 0x0F {
            let mut i: usize = 0;
            let mut same = true;
            while i < 11
                invariant
                    i <= 11,
                    s + 32 <= dir.len(),
                    name@.len() == 11,
                    same == forall|t: int| 0 <= t < i ==> dir@[s + t] == name@[t],
                decreases 11 - i,
            {
                if dir[s + i] != name[i] {
                    same = false;
                }
                i = i + 1;
            }
            if same {
                assert(dir@.subrange(s as int, s + 11) == name@);
                assert(s as int / 32 == k);
                return Some(s);
            }
            assert(!has_short_name(dir@, s as int, name@)) by {
                let t = choose|t: int| 0 <= t < 11 && dir@[s + t] != name@[t];
                assert(dir@.subrange(s as int, s + 11)[t] != name@[t]);
            }
        }
        k = k + 1;
    }
    assert forall|kk: int| !is_found_slot(dir@, name@, kk) by {
        if is_found_slot(dir@, name@, kk) {
            assert(kk < slots) by (nonlinear_arith)
                requires
                    32 * kk + 32 <= dir@.len(),
                    slots == dir@.len() / 32,
            ;
        }
    }
    None
}

/// First cluster named by the short entry at `off`.
pub open spec fn entry_cluster_spec(dir: Seq<u8>, off: int) -> int {
    le16(dir, off + 20) * 65536 + le16(dir, off + 26)
}

/// Size in bytes recorded by the short entry at `off`.
pub open spec fn entry_size_spec(dir: Seq<u8>, off: int) -> int {
    le32(dir, off + 28)
}

/// First cluster and size of the short entry at `off`.
pub fn entry_target(dir: &[u8], off: usize) -> (r: (u32, u32))
    requires
        off + 32 <= dir.len(),
    ensures
        r.0 == entry_cluster_spec(dir@, off as int),
        r.1 == entry_size_spec(dir@, off as int),
{
    let hi = read_le16(dir, off + 20);
    let lo = read_le16(dir, off + 26);
    (hi as u32 * 65536 + lo as u32, read_le32(dir, off + 28))
}

/// Rewrites the 32-byte entry `entry` so that it points at `cluster` and
/// records `size`; every other byte is kept.
pub fn retarget(entry: &[u8], cluster: u32, size: u32) -> (r: Vec<u8>)
    requires
        entry@.len() == 32,
    ensures
        r@.len() == 32,
        forall|i: int| 0 <= i < 32 && !(20 <= i < 22) && !(26 <= i < 32) ==> r@[i] == entry@[i],
        entry_cluster_spec(r@, 0) == cluster,
        entry_size_spec(r@, 0) == size,
{
    let mut r: Vec<u8> = Vec::new();
    let mut i: usize = 0;
    while i < 32
        invariant
            i <= 32,
            entry@.len() == 32,
            r@ == entry@.take(i as int),
        decreases 32 - i,
    {
        r.push(entry[i]);
        i = i + 1;
    }
    assert(entry@.take(32) == entry@);
    let hi = cluster / 65536;
    let lo = cluster % 65536;
    r.set(20, (hi % 256) as u8);
    r.set(21, (hi / 256) as u8);
    r.set(26, (lo % 256) as u8);
    r.set(27, (lo / 256) as u8);
    let slo = size % 65536;
    let shi = size / 65536;
    r.set(28, (slo % 256) as u8);
    r.set(29, (slo / 256) as u8);
    r.set(30, (shi % 256) as u8);
    r.set(31, (shi / 256) as u8);
    r
}

/// `s` followed by spaces up to `n` bytes.
pub open spec fn pad_spaces(s: Seq<u8>, n: nat) -> Seq<u8> {
    s + Seq::new((n - s.len()) as nat, |i: int| 0x20u8)
}

/// A first byte of 0xE5 is stored as 0x05, since 0xE5 marks a deleted entry.
pub open spec fn escape_first(f: Seq<u8>) -> Seq<u8> {
    if f.len() > 0 && f[0] == 0xE5 {
        f.update(0, 0x05)
    } else {
        f
    }
}

/// Position `d` holds the only dot of `s`.
pub open spec fn is_only_dot(s: Seq<u8>, d: int) -> bool {
    &&& 0 <= d < s.len()
    &&& s[d] == 0x2E
    &&& forall|j: int| 0 <= j < s.len() && j != d ==> s[j] != 0x2E
}

/// The 11-byte name field of a short entry whose name reads `s` in the
/// dotted form (`NAME.EXT`): the base padded to eight bytes and the
/// extension to three. None when `s` is no such name.
pub open spec fn short_field_spec(s: Seq<u8>) -> Option<Seq<u8>> {
    if forall|j: int| 0 <= j < s.len() ==> s[j] != 0x2E {
        if 1 <= s.len() <= 8 {
            Some(escape_first(pad_spaces(s, 11)))
        } else {
            None
        }
    } else if exists|d: int| is_only_dot(s, d) {
        let d = choose|d: int| is_only_dot(s, d);
        if 1 <= d <= 8 && s.len() - d - 1 <= 3 {
            Some(escape_first(pad_spaces(s.subrange(0, d), 8) + pad_spaces(s.subrange(d + 1, s.len() as int), 3)))
        } else {
            None
        }
    } else {
        None
    }
}

fn push_padded(v: &mut Vec<u8>, s: &[u8], from: usize, to: usize, n: usize)
    requires
        from <= to <= s.len(),
        to - from <= n,
        n <= 11,
    ensures
        final(v)@ == old(v)@ + pad_spaces(s@.subrange(from as int, to as int), n as nat),
{
    let ghost start = v@;
    let mut i: usize = from;
    while i < to
        invariant
            from <= i <= to,
            to <= s.len(),
            v@ == start + s@.subrange(from as int, i as int),
        decreases to - i,
    {
        v.push(s[i]);
        assert(s@.subrange(from as int, i + 1) == s@.subrange(from as int, i as int).push(s@[i as int]));
        i = i + 1;
    }
    let mut k: usize = to - from;
    while k < n
        invariant
            to - from <= k <= n,
            v@ == start + s@.subrange(from as int, to as int) + Seq::new((k - (to - from)) as nat, |i: int| 0x20u8),
        decreases n - k,
    {
        v.push(0x20u8);
        assert(Seq::new((k + 1 - (to - from)) as nat, |i: int| 0x20u8) == Seq::new((k - (to - from)) as nat, |i: int| 0x20u8).push(0x20u8));
        k = k + 1;
    }
}

/// The name field of the short entry whose dotted name is `s`, as a
/// filesystem reports short names.
pub fn short_field(s: &[u8]) -> (r: Option<Vec<u8>>)
    ensures
        match short_field_spec(s@) {
            Some(f) => r is Some && r->Some_0@ == f,
            None => r is None,
        },
{
    let n = s.len();
    let mut dot: usize = n;
    let mut count: usize = 0;
    let mut i: usize = 0;
    while i < n
        invariant
            n == s@.len(),
            i <= n,
            count <= i,
            count == 0 <==> forall|j: int| 0 <= j < i ==> s@[j] != 0x2E,
            count == 0 ==> dot == n,
            count >= 1 ==> dot < i && s@[dot as int] == 0x2E && forall|j: int| 0 <= j < dot ==> s@[j] != 0x2E,
            count == 1 ==> forall|j: int| 0 <= j < i && j != dot ==> s@[j] != 0x2E,
            count >= 2 ==> exists|j: int| 0 <= j < i && j != dot && s@[j] == 0x2E,
        decreases n - i,
    {
        if s[i] == 0x2E {
            if count == 0 {
                dot = i;
            }
            count = count + 1;
        }
        i = i + 1;
    }
    let mut f: Vec<u8> = Vec::new();
    if count == 0 {
        if n < 1 || n > 8 {
            return None;
        }
        push_padded(&mut f, s, 0, n, 11);
        assert(s@.subrange(0, n as int) == s@);
    } else if count == 1 {
        assert(is_only_dot(s@, dot as int));
        assert forall|d: int| is_only_dot(s@, d) implies d == dot by {}
        if dot < 1 || dot > 8 || n - dot - 1 > 3 {
            return None;
        }
        push_padded(&mut f, s, 0, dot, 8);
        push_padded(&mut f, s, dot + 1, n, 3);
    } else {
        assert forall|d: int| !is_only_dot(s@, d) by {
            if is_only_dot(s@, d) {
                let j = choose|j: int| 0 <= j < n && j != dot && s@[j] == 0x2E;
            }
        }
        return None;
    }
    if f[0] == 0xE5 {
        f.set(0, 0x05);
    }
    Some(f)
}

} // verus!
