//! The on-volume layout and the operations that change it.
//!
//! A managed volume holds a music directory of originals, a link directory of
//! hardlinks to them and a presence-only dirty flag at its root. The
//! operations below are what the commands ask the filesystem to do; `apply`
//! states what each one does to the layout.
use vstd::prelude::*;

verus! {

/// Directory holding the original music files.
pub const MUSIC_DIR: &'static str = "ORIG";

/// Suffix that stops the player from playing the originals.
pub const MUSIC_EXT: &'static str = ".x";

/// Directory holding the hardlinks, in play order.
pub const LINK_DIR: &'static str = "LINK";

/// File at the root whose presence says that hardlinks are live.
pub const DIRTY_FLAG_FILE: &'static str = "DO_NOT_MODIFY";

/// Explanation dropped at the root of a freshly formatted volume.
pub const README_FILE: &'static str = "README.txt";

/// The 11-byte volume label: `fat32ms` padded with NULs.
pub fn volume_label() -> (r: [u8; 11])
    ensures
        r@ == seq![0x66u8, 0x61, 0x74, 0x33, 0x32, 0x6d, 0x73, 0, 0, 0, 0],
{
    [0x66u8, 0x61, 0x74, 0x33, 0x32, 0x6d, 0x73, 0, 0, 0, 0]
}

/// One entry of a directory listing.
#[derive(Clone, Debug)]
pub struct Entry {
    pub name: String,
    pub is_file: bool,
}

/// What a listing entry is, as a mathematical value.
pub struct EntryView {
    pub name: Seq<char>,
    pub is_file: bool,
}

impl View for Entry {
    type V = EntryView;

    open spec fn view(&self) -> EntryView {
        EntryView { name: self.name@, is_file: self.is_file }
    }
}

/// The views of the entries of a listing.
pub open spec fn listing_view(s: Seq<Entry>) -> Seq<EntryView> {
    s.map_values(|e: Entry| e@)
}

/// The views of a list of names.
pub open spec fn names_view(s: Seq<String>) -> Seq<Seq<char>> {
    s.map_values(|n: String| n@)
}

/// A regular file of the music or link directory: its name and the first
/// cluster of the chain holding its bytes. A hardlink shares the cluster of
/// its original.
pub struct FileModel {
    pub name: Seq<char>,
    pub cluster: u32,
}

/// The managed layout: the regular files of the music and link directories,
/// in directory order, and whether the dirty flag is present. `next_cluster`
/// is where the next imported file starts.
pub struct VolumeModel {
    pub orig: Seq<FileModel>,
    pub link: Seq<FileModel>,
    pub dirty: bool,
    pub next_cluster: u32,
}

/// One request to the filesystem.
#[derive(Clone, Debug)]
pub enum Op {
    /// Create the dirty flag, or keep it if present.
    CreateFlag,
    /// Remove the dirty flag if present.
    RemoveFlag,
    /// Remove the named file from the link directory.
    RemoveLink { name: String },
    /// Remove the named file from the music directory.
    RemoveOriginal { name: String },
    /// Add `link` to the link directory as a hardlink to the original `source`.
    Hardlink { link: String, source: String },
}

/// An operation as a mathematical value. `Import` copies the source file
/// with index `index` into the music directory as `name`: it is what a copy
/// step of the importer does.
pub enum OpModel {
    CreateFlag,
    RemoveFlag,
    RemoveLink { name: Seq<char> },
    RemoveOriginal { name: Seq<char> },
    Hardlink { link: Seq<char>, source: Seq<char> },
    Import { name: Seq<char>, index: usize },
}

impl View for Op {
    type V = OpModel;

    open spec fn view(&self) -> OpModel {
        match self {
            Op::CreateFlag => OpModel::CreateFlag,
            Op::RemoveFlag => OpModel::RemoveFlag,
            Op::RemoveLink { name } => OpModel::RemoveLink { name: name@ },
            Op::RemoveOriginal { name } => OpModel::RemoveOriginal { name: name@ },
            Op::Hardlink { link, source } => OpModel::Hardlink { link: link@, source: source@ },
        }
    }
}

/// The views of a list of operations.
pub open spec fn ops_view(s: Seq<Op>) -> Seq<OpModel> {
    s.map_values(|o: Op| o@)
}

/// Largest cluster number a FAT32 volume can allocate, plus one.
pub open spec fn cluster_limit() -> u32 {
    0x0FFF_FFF7
}

/// Some file of `s` is named `n`.
pub open spec fn has_file(s: Seq<FileModel>, n: Seq<char>) -> bool {
    exists|i: int| 0 <= i < s.len() && s[i].name == n
}

/// `i` is the first position of a file named `n` in `s`.
pub open spec fn is_first(s: Seq<FileModel>, n: Seq<char>, i: int) -> bool {
    &&& 0 <= i < s.len()
    &&& s[i].name == n
    &&& forall|j: int| 0 <= j < i ==> s[j].name != n
}

/// The first cluster of the first file named `n` in `s`.
pub open spec fn cluster_of(s: Seq<FileModel>, n: Seq<char>) -> u32 {
    s[choose|i: int| is_first(s, n, i)].cluster
}

/// `s` without its files named `n`.
pub open spec fn without(s: Seq<FileModel>, n: Seq<char>) -> Seq<FileModel> {
    s.filter(|f: FileModel| f.name != n)
}

/// What one operation does to the layout. One that the filesystem refuses
/// (a hardlink to a missing original or onto an existing name, an import onto
/// an existing name or into a full volume) leaves it as it was.
pub open spec fn apply(v: VolumeModel, op: OpModel) -> VolumeModel {
    match op {
        OpModel::CreateFlag => VolumeModel { dirty: true, ..v },
        OpModel::RemoveFlag => VolumeModel { dirty: false, ..v },
        OpModel::RemoveLink { name } => VolumeModel { link: without(v.link, name), ..v },
        OpModel::RemoveOriginal { name } => VolumeModel { orig: without(v.orig, name), ..v },
        OpModel::Hardlink { link, source } => {
            if has_file(v.orig, source) && !has_file(v.link, link) {
                VolumeModel {
                    link: v.link.push(FileModel { name: link, cluster: cluster_of(v.orig, source) }),
                    ..v
                }
            } else {
                v
            }
        },
        OpModel::Import { name, index } => {
            if !has_file(v.orig, name) && v.next_cluster < cluster_limit() {
                VolumeModel {
                    orig: v.orig.push(FileModel { name, cluster: v.next_cluster }),
                    next_cluster: (v.next_cluster + 1) as u32,
                    ..v
                }
            } else {
                v
            }
        },
    }
}

/// The layout after the operations `ops`, in order.
pub open spec fn run(v: VolumeModel, ops: Seq<OpModel>) -> VolumeModel
    decreases ops.len(),
{
    if ops.len() == 0 {
        v
    } else {
        apply(run(v, ops.drop_last()), ops.last())
    }
}

/// The listing of a directory of the model: its regular files.
pub open spec fn listing_of(s: Seq<FileModel>) -> Seq<EntryView> {
    s.map_values(|f: FileModel| EntryView { name: f.name, is_file: true })
}

/// Running `a` then `b` is running their concatenation.
pub proof fn lemma_run_append(v: VolumeModel, a: Seq<OpModel>, b: Seq<OpModel>)
    ensures
        run(v, a + b) == run(run(v, a), b),
    decreases b.len(),
{
    if b.len() == 0 {
        assert(a + b == a);
    } else {
        assert((a + b).drop_last() == a + b.drop_last());
        assert((a + b).last() == b.last());
        lemma_run_append(v, a, b.drop_last());
    }
}

/// The names of the directories at the root of a managed volume.
pub open spec fn is_managed_spec(root: Seq<EntryView>) -> bool {
    &&& exists|i: int| 0 <= i < root.len() && !root[i].is_file && root[i].name == MUSIC_DIR@
    &&& exists|i: int| 0 <= i < root.len() && !root[i].is_file && root[i].name == LINK_DIR@
}

/// A volume is managed when its root holds both the music and the link
/// directory.
pub fn is_managed(root: &Vec<Entry>) -> (r: bool)
    ensures
        r == is_managed_spec(listing_view(root@)),
{
    let music = MUSIC_DIR.to_string();
    let link = LINK_DIR.to_string();
    let mut has_music = false;
    let mut has_link = false;
    let mut i: usize = 0;
    while i < root.len()
        invariant
            i <= root.len(),
            music@ == MUSIC_DIR@,
            link@ == LINK_DIR@,
            has_music == exists|k: int| 0 <= k < i && !root@[k].is_file && root@[k].name@ == MUSIC_DIR@,
            has_link == exists|k: int| 0 <= k < i && !root@[k].is_file && root@[k].name@ == LINK_DIR@,
        decreases root.len() - i,
    {
        let e = &root[i];
        if !e.is_file && e.name == music {
            has_music = true;
        }
        if !e.is_file && e.name == link {
            has_link = true;
        }
        i = i + 1;
    }
    let ghost lv = listing_view(root@);
    assert(has_music == exists|k: int| 0 <= k < lv.len() && !lv[k].is_file && lv[k].name == MUSIC_DIR@) by {
        if has_music {
            let k = choose|k: int| 0 <= k < root.len() && !root@[k].is_file && root@[k].name@ == MUSIC_DIR@;
            assert(lv[k] == root@[k]@);
        }
    }
    assert(has_link == exists|k: int| 0 <= k < lv.len() && !lv[k].is_file && lv[k].name == LINK_DIR@) by {
        if has_link {
            let k = choose|k: int| 0 <= k < root.len() && !root@[k].is_file && root@[k].name@ == LINK_DIR@;
            assert(lv[k] == root@[k]@);
        }
    }
    has_music && has_link
}

/// The root listing holds the dirty flag.
pub open spec fn is_dirty_spec(root: Seq<EntryView>) -> bool {
    exists|i: int| 0 <= i < root.len() && root[i].is_file && root[i].name == DIRTY_FLAG_FILE@
}

/// Whether the root of a volume holds the dirty flag: links are live, and
/// the volume must not be edited or imported into.
pub fn is_dirty(root: &Vec<Entry>) -> (r: bool)
    ensures
        r == is_dirty_spec(listing_view(root@)),
{
    let flag = DIRTY_FLAG_FILE.to_string();
    let mut i: usize = 0;
    while i < root.len()
        invariant
            i <= root.len(),
            flag@ == DIRTY_FLAG_FILE@,
            forall|k: int| 0 <= k < i ==> !(root@[k].is_file && root@[k].name@ == DIRTY_FLAG_FILE@),
        decreases root.len() - i,
    {
        if root[i].is_file && root[i].name == flag {
            assert(listing_view(root@)[i as int] == root@[i as int]@);
            return true;
        }
        i = i + 1;
    }
    assert forall|k: int| 0 <= k < root.len() implies !(listing_view(root@)[k].is_file && listing_view(root@)[k].name == DIRTY_FLAG_FILE@) by {
        assert(listing_view(root@)[k] == root@[k]@);
    }
    false
}

} // verus!
