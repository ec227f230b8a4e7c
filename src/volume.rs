//! A managed volume held in memory: the layout model made executable, for
//! running planned operations without a filesystem.
use vstd::prelude::*;
use crate::import::{import_ops_spec, ImportStep, ImportStepModel};
use crate::layout::{
    apply, cluster_limit, has_file, is_first, listing_of, listing_view, ops_view, run, without, Entry, FileModel, Op,
    OpModel, VolumeModel,
};

verus! {

/// A regular file of the music or link directory.
#[derive(Clone, Debug)]
pub struct File {
    pub name: String,
    pub cluster: u32,
}

impl View for File {
    type V = FileModel;

    open spec fn view(&self) -> FileModel {
        FileModel { name: self.name@, cluster: self.cluster }
    }
}

/// The views of a list of files.
pub open spec fn files_view(s: Seq<File>) -> Seq<FileModel> {
    s.map_values(|f: File| f@)
}

/// A managed volume in memory.
#[derive(Debug)]
pub struct Volume {
    pub orig: Vec<File>,
    pub link: Vec<File>,
    pub dirty: bool,
    pub next_cluster: u32,
}

impl View for Volume {
    type V = VolumeModel;

    open spec fn view(&self) -> VolumeModel {
        VolumeModel {
            orig: files_view(self.orig@),
            link: files_view(self.link@),
            dirty: self.dirty,
            next_cluster: self.next_cluster,
        }
    }
}

/// Position of the first file named `n`.
fn find_file(s: &Vec<File>, n: &String) -> (r: Option<usize>)
    ensures
        r is None <==> !has_file(files_view(s@), n@),
        r is Some ==> is_first(files_view(s@), n@, r->Some_0 as int),
{
    let ghost v = files_view(s@);
    let mut i: usize = 0;
    while i < s.len()
        invariant
            v == files_view(s@),
            i <= s.len(),
            forall|j: int| 0 <= j < i ==> v[j].name != n@,
        decreases s.len() - i,
    {
        if s[i].name == *n {
            assert(v[i as int].name == n@);
            return Some(i);
        }
        i = i + 1;
    }
    None
}

/// The cluster of the first file named `n` is the one `cluster_of` names.
proof fn lemma_first_unique(s: Seq<FileModel>, n: Seq<char>, i: int)
    requires
        is_first(s, n, i),
    ensures
        (choose|k: int| is_first(s, n, k)) == i,
{
    let k = choose|k: int| is_first(s, n, k);
    assert(is_first(s, n, k));
    if k < i {
        assert(s[k].name == n);
    } else if k > i {
        assert(s[i].name == n);
    }
}

/// `s` without its files named `n`.
fn without_files(s: &Vec<File>, n: &String) -> (r: Vec<File>)
    ensures
        files_view(r@) == without(files_view(s@), n@),
{
    let ghost v = files_view(s@);
    let ghost pred = |f: FileModel| f.name != n@;
    let mut r: Vec<File> = Vec::new();
    let mut i: usize = 0;
    while i < s.len()
        invariant
            v == files_view(s@),
            pred == (|f: FileModel| f.name != n@),
            i <= s.len(),
            files_view(r@) == v.take(i as int).filter(pred),
        decreases s.len() - i,
    {
        proof {
            assert(v.take(i + 1) == v.take(i as int).push(v[i as int]));
            v.take(i as int).lemma_filter_push(v[i as int], pred);
        }
        if s[i].name != *n {
            let f = File { name: s[i].name.clone(), cluster: s[i].cluster };
            let ghost prev = r@;
            r.push(f);
            assert(files_view(r@) == files_view(prev).push(f@));
        }
        i = i + 1;
    }
    assert(v.take(s.len() as int) == v);
    r
}

/// The listing of a directory of files.
fn listing(s: &Vec<File>) -> (r: Vec<Entry>)
    ensures
        listing_view(r@) == listing_of(files_view(s@)),
{
    let mut r: Vec<Entry> = Vec::new();
    let mut i: usize = 0;
    while i < s.len()
        invariant
            i <= s.len(),
            listing_view(r@) == listing_of(files_view(s@)).take(i as int),
        decreases s.len() - i,
    {
        let e = Entry { name: s[i].name.clone(), is_file: true };
        let ghost prev = r@;
        r.push(e);
        assert(listing_view(r@) == listing_view(prev).push(e@));
        assert(listing_of(files_view(s@)).take(i + 1) == listing_of(files_view(s@)).take(i as int).push(e@));
        i = i + 1;
    }
    assert(listing_of(files_view(s@)).take(s.len() as int) == listing_of(files_view(s@)));
    r
}

impl Volume {
    /// A freshly formatted volume: both directories empty, no dirty flag.
    /// Clusters are handed out from the first data cluster on.
    pub fn formatted() -> (r: Volume)
        ensures
            r@ == (VolumeModel { orig: Seq::empty(), link: Seq::empty(), dirty: false, next_cluster: 2 }),
    {
        let r = Volume { orig: Vec::new(), link: Vec::new(), dirty: false, next_cluster: 2 };
        assert(files_view(r.orig@) == Seq::<FileModel>::empty());
        assert(files_view(r.link@) == Seq::<FileModel>::empty());
        r
    }

    /// The listing of the music directory.
    pub fn music_listing(&self) -> (r: Vec<Entry>)
        ensures
            listing_view(r@) == listing_of(self@.orig),
    {
        listing(&self.orig)
    }

    /// The listing of the link directory.
    pub fn link_listing(&self) -> (r: Vec<Entry>)
        ensures
            listing_view(r@) == listing_of(self@.link),
    {
        listing(&self.link)
    }

    /// Performs one operation; false when the filesystem would refuse it, in
    /// which case nothing changes.
    pub fn apply(&mut self, op: &Op) -> (ok: bool)
        ensures
            final(self)@ == apply(old(self)@, op@),
            !ok ==> final(self)@ == old(self)@,
    {
        match op {
            Op::CreateFlag => {
                self.dirty = true;
                true
            },
            Op::RemoveFlag => {
                self.dirty = false;
                true
            },
            Op::RemoveLink { name } => {
                self.link = without_files(&self.link, name);
                true
            },
            Op::RemoveOriginal { name } => {
                self.orig = without_files(&self.orig, name);
                true
            },
            Op::Hardlink { link, source } => {
                match find_file(&self.orig, source) {
                    None => false,
                    Some(i) => {
                        if find_file(&self.link, link).is_some() {
                            return false;
                        }
                        proof {
                            lemma_first_unique(files_view(self.orig@), source@, i as int);
                        }
                        let f = File { name: link.clone(), cluster: self.orig[i].cluster };
                        let ghost prev = self.link@;
                        self.link.push(f);
                        assert(files_view(self.link@) == files_view(prev).push(f@));
                        true
                    },
                }
            },
        }
    }

    /// Copies a file in as the importer's step says; a skip changes nothing.
    /// False when the filesystem would refuse the copy.
    pub fn import_step(&mut self, step: &ImportStep) -> (ok: bool)
        ensures
            final(self)@ == run(old(self)@, import_ops_spec(seq![step@])),
            !ok ==> final(self)@ == old(self)@,
    {
        proof {
            assert(seq![step@].drop_last() == Seq::<ImportStepModel>::empty());
            assert(import_ops_spec(Seq::<ImportStepModel>::empty()) == Seq::<OpModel>::empty());
        }
        match step {
            ImportStep::Skip { .. } => {
                assert(import_ops_spec(seq![step@]) == Seq::<OpModel>::empty());
                assert(run(self@, Seq::<OpModel>::empty()) == self@);
                true
            },
            ImportStep::Copy { index, name } => {
                let ghost op = OpModel::Import { name: name@, index: *index };
                assert(import_ops_spec(seq![step@]) == seq![op]);
                assert(seq![op].drop_last() == Seq::<OpModel>::empty());
                assert(run(self@, Seq::<OpModel>::empty()) == self@);
                assert(run(self@, seq![op]) == apply(self@, op));
                assert(cluster_limit() == 0x0FFF_FFF7);
                if find_file(&self.orig, name).is_some() || self.next_cluster >= 0x0FFF_FFF7 {
                    return false;
                }
                let f = File { name: name.clone(), cluster: self.next_cluster };
                let ghost prev = self.orig@;
                self.orig.push(f);
                assert(files_view(self.orig@) == files_view(prev).push(f@));
                self.next_cluster = self.next_cluster + 1;
                true
            },
        }
    }

    /// Performs the operations in order, including after a refused one.
    pub fn apply_all(&mut self, ops: &Vec<Op>)
        ensures
            final(self)@ == run(old(self)@, ops_view(ops@)),
    {
        let mut i: usize = 0;
        while i < ops.len()
            invariant
                i <= ops.len(),
                self@ == run(old(self)@, ops_view(ops@).take(i as int)),
            decreases ops.len() - i,
        {
            let ghost before = self@;
            self.apply(&ops[i]);
            assert(ops_view(ops@).take(i + 1).drop_last() == ops_view(ops@).take(i as int));
            i = i + 1;
        }
        assert(ops_view(ops@).take(ops.len() as int) == ops_view(ops@));
    }
}

} // verus!
