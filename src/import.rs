//! The importer: which source files are copied into the music directory, and
//! under which names.
use vstd::prelude::*;
use crate::layout::{listing_view, names_view, Entry, EntryView, OpModel};
use crate::names::{import_name, import_name_spec};

verus! {

/// Options of the import command.
#[derive(Clone, Debug)]
pub struct CmdImport {
    /// Files or directories to scan, recursively, for MP3 files.
    pub paths: Vec<String>,
}

/// What happens to one source file. `index` is its position in the list of
/// source files, `name` the name it has or would have in the music directory.
#[derive(Clone, Debug)]
pub enum ImportStep {
    /// Copy the file in under `name`.
    Copy { index: usize, name: String },
    /// Leave it out: `name` is already taken, and overwriting an original would
    /// corrupt every link to it.
    Skip { index: usize, name: String },
}

/// An import step as a mathematical value.
pub enum ImportStepModel {
    Copy { index: usize, name: Seq<char> },
    Skip { index: usize, name: Seq<char> },
}

impl View for ImportStep {
    type V = ImportStepModel;

    open spec fn view(&self) -> ImportStepModel {
        match self {
            ImportStep::Copy { index, name } => ImportStepModel::Copy { index: *index, name: name@ },
            ImportStep::Skip { index, name } => ImportStepModel::Skip { index: *index, name: name@ },
        }
    }
}

/// The views of a list of import steps.
pub open spec fn steps_view(s: Seq<ImportStep>) -> Seq<ImportStepModel> {
    s.map_values(|st: ImportStep| st@)
}

/// The names of the entries of a listing.
pub open spec fn entry_names(l: Seq<EntryView>) -> Seq<Seq<char>> {
    l.map_values(|e: EntryView| e.name)
}

/// `name` is taken before the source file `k` is handled: an entry of the
/// music directory has it, or an earlier source file maps to it.
pub open spec fn taken_before(existing: Seq<Seq<char>>, files: Seq<Seq<char>>, k: int, name: Seq<char>) -> bool {
    existing.contains(name) || exists|j: int| 0 <= j < k && import_name_spec(files[j]) == name
}

/// The step for source file `k`: copied under its import name unless that
/// name is taken.
pub open spec fn import_step_spec(existing: Seq<Seq<char>>, files: Seq<Seq<char>>, k: int) -> ImportStepModel {
    let name = import_name_spec(files[k]);
    if taken_before(existing, files, k, name) {
        ImportStepModel::Skip { index: k as usize, name }
    } else {
        ImportStepModel::Copy { index: k as usize, name }
    }
}

/// One step per source file, in order.
pub open spec fn import_plan_spec(existing: Seq<Seq<char>>, files: Seq<Seq<char>>) -> Seq<ImportStepModel> {
    Seq::new(files.len(), |k: int| import_step_spec(existing, files, k))
}

/// The filesystem operations of a plan: one import per copy step.
pub open spec fn import_ops_spec(steps: Seq<ImportStepModel>) -> Seq<OpModel>
    decreases steps.len(),
{
    if steps.len() == 0 {
        Seq::empty()
    } else {
        let prev = import_ops_spec(steps.drop_last());
        match steps.last() {
            ImportStepModel::Copy { index, name } => prev.push(OpModel::Import { name, index }),
            ImportStepModel::Skip { .. } => prev,
        }
    }
}

fn contains_name(v: &Vec<String>, s: &String) -> (r: bool)
    ensures
        r == names_view(v@).contains(s@),
{
    let mut i: usize = 0;
    while i < v.len()
        invariant
            i <= v.len(),
            forall|j: int| 0 <= j < i ==> v@[j]@ != s@,
        decreases v.len() - i,
    {
        if v[i] == *s {
            assert(names_view(v@)[i as int] == s@);
            return true;
        }
        i = i + 1;
    }
    false
}

/// Plans the import of source files named `files` into a music directory
/// listing `orig`: each file is copied under its import name, unless an entry
/// of the directory or an earlier file has that name already.
pub fn import(orig: &Vec<Entry>, files: &Vec<String>) -> (r: Vec<ImportStep>)
    ensures
        steps_view(r@) == import_plan_spec(entry_names(listing_view(orig@)), names_view(files@)),
{
    let ghost existing = entry_names(listing_view(orig@));
    let ghost fv = names_view(files@);
    let mut taken: Vec<String> = Vec::new();
    let mut i: usize = 0;
    while i < orig.len()
        invariant
            i <= orig.len(),
            existing == entry_names(listing_view(orig@)),
            names_view(taken@) == existing.take(i as int),
        decreases orig.len() - i,
    {
        let ghost prev = taken@;
        let n = orig[i].name.clone();
        taken.push(n);
        proof {
            assert(listing_view(orig@)[i as int] == orig@[i as int]@);
            assert(existing[i as int] == n@);
            assert(names_view(taken@) == names_view(prev).push(n@));
            assert(existing.take(i + 1) == existing.take(i as int).push(n@));
        }
        i = i + 1;
    }
    assert(existing.take(orig.len() as int) == existing);
    let mut steps: Vec<ImportStep> = Vec::new();
    let mut k: usize = 0;
    while k < files.len()
        invariant
            k <= files.len(),
            fv == names_view(files@),
            forall|x: Seq<char>| #[trigger] names_view(taken@).contains(x) <==> taken_before(existing, fv, k as int, x),
            steps_view(steps@) == import_plan_spec(existing, fv).take(k as int),
        decreases files.len() - k,
    {
        let name = import_name(files[k].as_str());
        assert(name@ == import_name_spec(fv[k as int]));
        let t = contains_name(&taken, &name);
        let ghost prev = steps@;
        let step = if t {
            ImportStep::Skip { index: k, name: name.clone() }
        } else {
            ImportStep::Copy { index: k, name: name.clone() }
        };
        steps.push(step);
        assert(steps_view(steps@) == steps_view(prev).push(step@));
        assert(import_plan_spec(existing, fv).take(k + 1) == import_plan_spec(existing, fv).take(k as int).push(step@));
        let ghost old_taken = taken@;
        taken.push(name);
        proof {
            assert(names_view(taken@) == names_view(old_taken).push(import_name_spec(fv[k as int])));
            assert forall|x: Seq<char>| #[trigger] names_view(taken@).contains(x) <==> taken_before(existing, fv, k + 1, x) by {
                if names_view(taken@).contains(x) && x != import_name_spec(fv[k as int]) {
                    let j = choose|j: int| 0 <= j < names_view(taken@).len() && names_view(taken@)[j] == x;
                    assert(names_view(old_taken)[j] == x);
                    assert(names_view(old_taken).contains(x));
                }
                if taken_before(existing, fv, k + 1, x) && x != import_name_spec(fv[k as int]) {
                    assert(taken_before(existing, fv, k as int, x));
                    assert(names_view(old_taken).contains(x));
                    let j = choose|j: int| 0 <= j < names_view(old_taken).len() && names_view(old_taken)[j] == x;
                    assert(names_view(taken@)[j] == x);
                }
                if x == import_name_spec(fv[k as int]) {
                    assert(names_view(taken@)[old_taken.len() as int] == x);
                }
            }
        }
        k = k + 1;
    }
    assert(import_plan_spec(existing, fv).take(files.len() as int) == import_plan_spec(existing, fv));
    steps
}

} // verus!
