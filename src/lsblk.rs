//! Block devices as the device enumerator reports them, and the choices made
//! on them: which ones are listed, which one a typed path names.
use vstd::prelude::*;
use crate::names::push_char;
use crate::layout::names_view;
use vstd::string::StringExecFns;

verus! {

/// Kind of a block device.
#[derive(Clone, Copy, Debug, PartialEq, Eq)]
pub enum BlockDeviceType {
    Partition,
    Disk,
}

/// One record of the device enumerator.
#[derive(Debug)]
pub struct BlockDeviceInfo {
    pub path: String,
    pub label: Option<String>,
    pub removable: bool,
    pub model: Option<String>,
    pub dev_type: BlockDeviceType,
    pub size: String,
    pub children: Option<Vec<BlockDeviceInfo>>,
}

/// A block device offered as a target.
#[derive(Debug)]
pub struct BlockDevice {
    /// Path to open the device.
    pub path: String,
    /// The device is removable (SD card, external drive, …).
    pub removable: bool,
    /// The device is a partition rather than a disk.
    pub is_partition: bool,
    /// How the device is shown to the user.
    pub repr: String,
    /// Partitions of the device, if it is a disk.
    pub partitions: Option<Vec<BlockDevice>>,
}

/// `s` without the whitespace at its ends, as `str::trim` gives it.
pub uninterp spec fn trimmed(s: Seq<char>) -> Seq<char>;

/// `s` quoted and escaped, as `str`'s `Debug` formatting gives it.
pub uninterp spec fn debug_quoted(s: Seq<char>) -> Seq<char>;

/// Relies on `str::trim`: the result depends on the characters alone.
#[verifier::external_body]
fn trim(s: &str) -> (r: String)
    ensures
        r@ == trimmed(s@),
{
    s.trim().to_string()
}

/// Relies on `str`'s `Debug` formatting: the result depends on the characters
/// alone.
#[verifier::external_body]
fn quote(s: &str) -> (r: String)
    ensures
        r@ == debug_quoted(s@),
{
    format!("{:?}", s)
}

/// ` "<trimmed text>"` for a present label or model, nothing otherwise.
pub open spec fn annotation(s: Option<String>) -> Seq<char> {
    match s {
        Some(t) => seq![' '] + debug_quoted(trimmed(t@)),
        None => Seq::empty(),
    }
}

/// How a device is shown: its path, its quoted label and model if present,
/// then its size.
pub open spec fn repr_spec(info: BlockDeviceInfo) -> Seq<char> {
    info.path@ + annotation(info.label) + annotation(info.model) + seq![' '] + info.size@
}

fn push_annotation(s: &mut String, a: &Option<String>)
    ensures
        final(s)@ == old(s)@ + annotation(*a),
{
    match a {
        Some(t) => {
            let q = quote(trim(t.as_str()).as_str());
            push_char(s, ' ');
            s.append(q.as_str());
            assert(final(s)@ == old(s)@ + annotation(*a));
        },
        None => {
            assert(old(s)@ + Seq::<char>::empty() == old(s)@);
        },
    }
}

/// The fields that `dev` takes from the record `info`: same path and
/// removability, a partition exactly when the record is one, and shown as
/// `repr_spec` says.
pub open spec fn same_device(info: BlockDeviceInfo, dev: BlockDevice) -> bool {
    &&& dev.path@ == info.path@
    &&& dev.removable == info.removable
    &&& dev.is_partition == (info.dev_type == BlockDeviceType::Partition)
    &&& dev.repr@ == repr_spec(info)
}

/// `dev` has the fields that `same_device` names, and partitions exactly
/// when the record has children, as many as it has.
pub open spec fn same_shape(info: BlockDeviceInfo, dev: BlockDevice) -> bool {
    &&& same_device(info, dev)
    &&& (info.children is None <==> dev.partitions is None)
    &&& info.children is Some ==> dev.partitions->Some_0@.len() == info.children->Some_0@.len()
}

/// The record reached from `info` by following `path`, one child index per
/// step.
pub open spec fn record_at(info: BlockDeviceInfo, path: Seq<int>) -> Option<BlockDeviceInfo>
    decreases path.len(),
{
    if path.len() == 0 {
        Some(info)
    } else {
        match info.children {
            Some(c) => {
                if 0 <= path[0] < c@.len() {
                    record_at(c@[path[0]], path.drop_first())
                } else {
                    None
                }
            },
            None => None,
        }
    }
}

/// The device reached from `dev` by following `path`, one partition index
/// per step.
pub open spec fn device_at(dev: BlockDevice, path: Seq<int>) -> Option<BlockDevice>
    decreases path.len(),
{
    if path.len() == 0 {
        Some(dev)
    } else {
        match dev.partitions {
            Some(p) => {
                if 0 <= path[0] < p@.len() {
                    device_at(p@[path[0]], path.drop_first())
                } else {
                    None
                }
            },
            None => None,
        }
    }
}

/// `dev` is the target that the record `info` describes, at every depth:
/// each path reaches a record exactly when it reaches a device, and the
/// device reached has the record's fields and shape.
pub open spec fn converts(info: BlockDeviceInfo, dev: BlockDevice) -> bool {
    forall|path: Seq<int>| {
        &&& (#[trigger] record_at(info, path) is Some <==> device_at(dev, path) is Some)
        &&& (record_at(info, path) is Some ==> same_shape(record_at(info, path)->Some_0, device_at(dev, path)->Some_0))
    }
}

impl BlockDeviceInfo {
    /// Whether the record is a partition.
    pub fn is_partition(&self) -> (r: bool)
        ensures
            r == (self.dev_type == BlockDeviceType::Partition),
    {
        match self.dev_type {
            BlockDeviceType::Partition => true,
            BlockDeviceType::Disk => false,
        }
    }

    /// How the device is shown to the user.
    pub fn repr(&self) -> (r: String)
        ensures
            r@ == repr_spec(*self),
    {
        let mut s = self.path.clone();
        push_annotation(&mut s, &self.label);
        push_annotation(&mut s, &self.model);
        push_char(&mut s, ' ');
        s.append(self.size.as_str());
        s
    }

    /// The target that this record describes.
    pub fn to_block_device(&self) -> (r: BlockDevice)
        ensures
            converts(*self, r),
        decreases self,
    {
        let partitions = match &self.children {
            None => None,
            Some(c) => {
                let mut parts: Vec<BlockDevice> = Vec::new();
                let mut i: usize = 0;
                while i < c.len()
                    invariant
                        self.children == Some(*c),
                        i <= c.len(),
                        parts@.len() == i,
                        forall|k: int| 0 <= k < i ==> #[trigger] converts(c@[k], parts@[k]),
                    decreases c.len() - i,
                {
                    proof {
                        vstd::std_specs::vec::axiom_vec_index_decreases(*c, i as int);
                        assert(decreases_to!(*self => self.children));
                        assert(decreases_to!(self.children => self.children->Some_0));
                        assert(decreases_to!(*self => c@[i as int]));
                    }
                    let d = c[i].to_block_device();
                    parts.push(d);
                    i = i + 1;
                }
                assert(parts@.len() == self.children->Some_0@.len());
                Some(parts)
            },
        };
        assert(self.children is None <==> partitions is None);
        assert(self.children is Some ==> partitions->Some_0@.len() == self.children->Some_0@.len()
            && forall|k: int| 0 <= k < partitions->Some_0@.len() ==> #[trigger] converts(self.children->Some_0@[k], partitions->Some_0@[k]));
        let r = BlockDevice {
            path: self.path.clone(),
            removable: self.removable,
            is_partition: self.is_partition(),
            repr: self.repr(),
            partitions,
        };
        assert(r.path@ == self.path@);
        assert(r.repr@ == repr_spec(*self));
        assert(r.is_partition == (self.dev_type == BlockDeviceType::Partition));
        assert(same_device(*self, r));
        assert(same_shape(*self, r));
        assert forall|path: Seq<int>| {
            &&& (#[trigger] record_at(*self, path) is Some <==> device_at(r, path) is Some)
            &&& (record_at(*self, path) is Some ==> same_shape(record_at(*self, path)->Some_0, device_at(r, path)->Some_0))
        } by {
            if path.len() == 0 {
                assert(record_at(*self, path) == Some(*self));
                assert(device_at(r, path) == Some(r));
            } else if self.children is Some && 0 <= path[0] < self.children->Some_0@.len() {
                let i = path[0];
                let rest = path.drop_first();
                let c = self.children->Some_0@;
                let p = r.partitions->Some_0@;
                assert(record_at(*self, path) == record_at(c[i], rest));
                assert(device_at(r, path) == device_at(p[i], rest));
                assert(converts(c[i], p[i]));
                assert(record_at(c[i], rest) is Some <==> device_at(p[i], rest) is Some);
            } else {
                assert(record_at(*self, path) is None);
                assert(device_at(r, path) is None);
            }
        }
        assert(converts(*self, r));
        r
    }
}

/// The targets that the records `infos` describe, in order.
pub fn query_all_block_devices(infos: &Vec<BlockDeviceInfo>) -> (r: Vec<BlockDevice>)
    ensures
        r@.len() == infos@.len(),
        forall|i: int| 0 <= i < infos@.len() ==> #[trigger] converts(infos@[i], r@[i]),
{
    let mut r: Vec<BlockDevice> = Vec::new();
    let mut i: usize = 0;
    while i < infos.len()
        invariant
            i <= infos.len(),
            r@.len() == i,
            forall|k: int| 0 <= k < i ==> #[trigger] converts(infos@[k], r@[k]),
        decreases infos.len() - i,
    {
        r.push(infos[i].to_block_device());
        i = i + 1;
    }
    r
}

} // verus!

verus! {

/// The first partition of `d` at `path`, if `d` is not itself at `path`.
pub open spec fn first_partition_at(d: BlockDevice, path: Seq<char>, j: int) -> bool {
    &&& d.partitions is Some
    &&& 0 <= j < d.partitions->Some_0@.len()
    &&& d.partitions->Some_0@[j].path@ == path
    &&& forall|k: int| 0 <= k < j ==> d.partitions->Some_0@[k].path@ != path
}

/// `d` or one of its partitions is at `path`.
pub open spec fn holds_path(d: BlockDevice, path: Seq<char>) -> bool {
    d.path@ == path || exists|j: int| first_partition_at(d, path, j)
}

/// `x` is what a lookup of `path` finds in `d`: `d` itself when it is at
/// `path`, else its first partition there.
pub open spec fn found_in(d: BlockDevice, path: Seq<char>, x: BlockDevice) -> bool {
    if d.path@ == path {
        x == d
    } else {
        exists|j: int| first_partition_at(d, path, j) && x == d.partitions->Some_0@[j]
    }
}

fn same_text(a: &str, b: &str) -> (r: bool)
    ensures
        r == (a@ == b@),
{
    let n = a.unicode_len();
    if n != b.unicode_len() {
        return false;
    }
    let mut i: usize = 0;
    while i < n
        invariant
            n == a@.len(),
            n == b@.len(),
            i <= n,
            forall|k: int| 0 <= k < i ==> a@[k] == b@[k],
        decreases n - i,
    {
        if a.get_char(i) != b.get_char(i) {
            return false;
        }
        i = i + 1;
    }
    assert(a@ == b@);
    true
}

/// The device at `path`: the devices are searched in order, each before its
/// partitions.
pub fn find_device<'a>(devices: &'a Vec<BlockDevice>, path: &str) -> (r: Option<&'a BlockDevice>)
    ensures
        r is None <==> forall|i: int| 0 <= i < devices@.len() ==> !holds_path(#[trigger] devices@[i], path@),
        r is Some ==> exists|i: int| {
            &&& 0 <= i < devices@.len()
            &&& holds_path(devices@[i], path@)
            &&& found_in(devices@[i], path@, *r->Some_0)
            &&& forall|k: int| 0 <= k < i ==> !holds_path(#[trigger] devices@[k], path@)
        },
{
    let mut i: usize = 0;
    while i < devices.len()
        invariant
            i <= devices.len(),
            forall|k: int| 0 <= k < i ==> !holds_path(#[trigger] devices@[k], path@),
        decreases devices.len() - i,
    {
        let d = &devices[i];
        if same_text(d.path.as_str(), path) {
            assert(holds_path(devices@[i as int], path@));
            return Some(d);
        }
        match &d.partitions {
            None => {},
            Some(parts) => {
                let mut j: usize = 0;
                while j < parts.len()
                    invariant
                        i < devices.len(),
                        forall|k: int| 0 <= k < i ==> !holds_path(#[trigger] devices@[k], path@),
                        *d == devices@[i as int],
                        d.partitions == Some(*parts),
                        d.path@ != path@,
                        j <= parts.len(),
                        forall|k: int| 0 <= k < j ==> parts@[k].path@ != path@,
                    decreases parts.len() - j,
                {
                    if same_text(parts[j].path.as_str(), path) {
                        assert(first_partition_at(*d, path@, j as int));
                        assert(holds_path(devices@[i as int], path@));
                        assert(found_in(devices@[i as int], path@, parts@[j as int]));
                        return Some(&parts[j]);
                    }
                    j = j + 1;
                }
                assert forall|jj: int| !first_partition_at(*d, path@, jj) by {}
            },
        }
        assert(!holds_path(devices@[i as int], path@));
        i = i + 1;
    }
    None
}

/// Why a typed answer names no usable target.
#[derive(Clone, Copy, Debug, PartialEq, Eq)]
pub enum TargetError {
    /// Nothing was typed: the user gave up.
    Aborted,
    /// No listed device or partition has that path.
    NotADevice,
    /// The path is a disk where a partition is needed.
    NotAPartition,
}

/// The target named by a typed answer: the answer without surrounding
/// whitespace is looked up with `find_device`; an empty answer aborts, and
/// a disk is refused when `no_disk` asks for a partition.
pub fn select_target<'a>(devices: &'a Vec<BlockDevice>, answer: &str, no_disk: bool) -> (r: Result<&'a BlockDevice, TargetError>)
    ensures
        trimmed(answer@).len() == 0 ==> r == Err::<&BlockDevice, TargetError>(TargetError::Aborted),
        trimmed(answer@).len() > 0 ==> {
            let p = trimmed(answer@);
            &&& (r == Err::<&BlockDevice, TargetError>(TargetError::NotADevice)
                <==> forall|i: int| 0 <= i < devices@.len() ==> !holds_path(#[trigger] devices@[i], p))
            &&& (r is Err ==> r == Err::<&BlockDevice, TargetError>(TargetError::NotADevice)
                || (r == Err::<&BlockDevice, TargetError>(TargetError::NotAPartition) && no_disk))
            &&& (r is Ok || r == Err::<&BlockDevice, TargetError>(TargetError::NotAPartition)) ==> exists|i: int| {
                &&& 0 <= i < devices@.len()
                &&& forall|k: int| 0 <= k < i ==> !holds_path(#[trigger] devices@[k], p)
                &&& holds_path(devices@[i], p)
                &&& (r is Ok ==> found_in(devices@[i], p, *r->Ok_0) && (no_disk ==> r->Ok_0.is_partition))
                &&& (r is Err ==> exists|x: BlockDevice| found_in(devices@[i], p, x) && !x.is_partition)
            }
        },
{
    let a = trim(answer);
    if a.as_str().unicode_len() == 0 {
        return Err(TargetError::Aborted);
    }
    match find_device(devices, a.as_str()) {
        None => Err(TargetError::NotADevice),
        Some(d) => {
            if no_disk && !d.is_partition {
                Err(TargetError::NotAPartition)
            } else {
                Ok(d)
            }
        },
    }
}

/// An answer that confirms a prompt: `y`, `Y` or `yes`, whitespace around it
/// aside.
pub open spec fn is_confirmation_spec(answer: Seq<char>) -> bool {
    let a = trimmed(answer);
    a == seq!['y'] || a == seq!['Y'] || a == seq!['y', 'e', 's']
}

/// Whether a typed answer confirms a prompt.
pub fn is_confirmation(answer: &str) -> (r: bool)
    ensures
        r == is_confirmation_spec(answer@),
{
    let a = trim(answer);
    proof {
        reveal_strlit("y");
        reveal_strlit("Y");
        reveal_strlit("yes");
    }
    assert("y"@ == seq!['y']);
    assert("Y"@ == seq!['Y']);
    assert("yes"@ == seq!['y', 'e', 's']);
    same_text(a.as_str(), "y") || same_text(a.as_str(), "Y") || same_text(a.as_str(), "yes")
}

/// How a partition is listed under its disk.
pub open spec fn partition_line(p: BlockDevice) -> Seq<char> {
    seq![' ', ' '] + p.repr@
}

/// The lines that list `d`: none when only removable devices are shown and
/// `d` is not one; else its own line, then one indented line per partition.
pub open spec fn device_lines(d: BlockDevice, only_removable: bool) -> Seq<Seq<char>> {
    if only_removable && !d.removable {
        Seq::empty()
    } else {
        seq![d.repr@] + match d.partitions {
            None => Seq::empty(),
            Some(p) => p@.map_values(|x: BlockDevice| partition_line(x)),
        }
    }
}

/// The lines that list `devices`, in order.
pub open spec fn listing_lines(devices: Seq<BlockDevice>, only_removable: bool) -> Seq<Seq<char>>
    decreases devices.len(),
{
    if devices.len() == 0 {
        Seq::empty()
    } else {
        listing_lines(devices.drop_last(), only_removable) + device_lines(devices.last(), only_removable)
    }
}

/// The lines shown when the user is asked for a target.
pub fn device_listing(devices: &Vec<BlockDevice>, only_removable: bool) -> (r: Vec<String>)
    ensures
        names_view(r@) == listing_lines(devices@, only_removable),
{
    let mut lines: Vec<String> = Vec::new();
    let mut i: usize = 0;
    while i < devices.len()
        invariant
            i <= devices.len(),
            names_view(lines@) == listing_lines(devices@.take(i as int), only_removable),
        decreases devices.len() - i,
    {
        let d = &devices[i];
        let ghost start = names_view(lines@);
        assert(devices@.take(i + 1).drop_last() == devices@.take(i as int));
        if !(only_removable && !d.removable) {
            let ghost prev = lines@;
            lines.push(d.repr.clone());
            assert(names_view(lines@) == names_view(prev).push(d.repr@));
            match &d.partitions {
                None => {
                    assert(names_view(lines@) == start + device_lines(*d, only_removable));
                },
                Some(parts) => {
                    let ghost mid = names_view(lines@);
                    let mut j: usize = 0;
                    while j < parts.len()
                        invariant
                            j <= parts.len(),
                            names_view(lines@) == mid + parts@.take(j as int).map_values(|x: BlockDevice| partition_line(x)),
                        decreases parts.len() - j,
                    {
                        let mut line = String::new();
                        push_char(&mut line, ' ');
                        push_char(&mut line, ' ');
                        line.append(parts[j].repr.as_str());
                        assert(line@ == partition_line(parts@[j as int]));
                        let ghost prev2 = lines@;
                        lines.push(line);
                        assert(names_view(lines@) == names_view(prev2).push(partition_line(parts@[j as int])));
                        assert(parts@.take(j + 1).map_values(|x: BlockDevice| partition_line(x)) == parts@.take(j as int).map_values(|x: BlockDevice| partition_line(x)).push(partition_line(parts@[j as int])));
                        j = j + 1;
                    }
                    assert(parts@.take(parts.len() as int) == parts@);
                    assert(names_view(lines@) == start + device_lines(*d, only_removable));
                },
            }
        } else {
            assert(device_lines(*d, only_removable) == Seq::<Seq<char>>::empty());
            assert(names_view(lines@) == start + device_lines(*d, only_removable));
        }
        i = i + 1;
    }
    assert(devices@.take(devices.len() as int) == devices@);
    lines
}

} // verus!
