//! Block devices, and how a list of them is arranged: the largest disks first,
//! each followed by its partitions.

use vstd::prelude::*;

use crate::text::{before, is_before, law_before_is_an_order, same, starts_with};

verus! {

/// Whole disk or part of one.
#[derive(Debug, Clone, Copy, PartialEq, Eq, Structural)]
pub enum Kind {
    Disk,
    Partition,
}

/// A mounted filesystem.
#[derive(Debug)]
pub struct Mount {
    pub path: String,
    pub fstype: String,
    pub writable: bool,
    pub free: u64,
}

/// The values of a mount.
pub ghost struct MountView {
    pub path: Seq<char>,
    pub fstype: Seq<char>,
    pub writable: bool,
    pub free: u64,
}

impl View for Mount {
    type V = MountView;

    open spec fn view(&self) -> MountView {
        MountView {
            path: self.path@,
            fstype: self.fstype@,
            writable: self.writable,
            free: self.free,
        }
    }
}

impl DeepView for Mount {
    type V = MountView;

    open spec fn deep_view(&self) -> MountView {
        self@
    }
}

impl Clone for Mount {
    fn clone(&self) -> (r: Mount)
        ensures
            r@ == self@,
    {
        Mount {
            path: self.path.clone(),
            fstype: self.fstype.clone(),
            writable: self.writable,
            free: self.free,
        }
    }
}

/// A block device, or a path that stands for one.
#[derive(Debug)]
pub struct Device {
    /// Kernel name, e.g. `nvme0n1` or `disk0s2`.
    pub name: String,
    pub path: String,
    pub kind: Kind,
    pub size: u64,
    pub model: String,
    pub rotational: Option<bool>,
    pub removable: bool,
    pub mount: Option<Mount>,
    /// True when `mount` was borrowed from a partition of this disk rather than
    /// being a filesystem on the device itself. Selecting a whole disk is the
    /// common case, and it is almost never mounted directly.
    pub mount_inherited: bool,
}

/// The values of a device.
pub ghost struct DeviceView {
    pub name: Seq<char>,
    pub path: Seq<char>,
    pub kind: Kind,
    pub size: u64,
    pub model: Seq<char>,
    pub rotational: Option<bool>,
    pub removable: bool,
    pub mount: Option<MountView>,
    pub mount_inherited: bool,
}

impl View for Device {
    type V = DeviceView;

    open spec fn view(&self) -> DeviceView {
        DeviceView {
            name: self.name@,
            path: self.path@,
            kind: self.kind,
            size: self.size,
            model: self.model@,
            rotational: self.rotational,
            removable: self.removable,
            mount: self.mount.deep_view(),
            mount_inherited: self.mount_inherited,
        }
    }
}

impl DeepView for Device {
    type V = DeviceView;

    open spec fn deep_view(&self) -> DeviceView {
        self@
    }
}

/// A copy of a mount, where there is one.
pub(crate) fn copy_mount(mount: &Option<Mount>) -> (r: Option<Mount>)
    ensures
        r.deep_view() == mount.deep_view(),
{
    match mount {
        Some(m) => Some(m.clone()),
        None => None,
    }
}

impl Clone for Device {
    fn clone(&self) -> (r: Device)
        ensures
            r@ == self@,
    {
        Device {
            name: self.name.clone(),
            path: self.path.clone(),
            kind: self.kind,
            size: self.size,
            model: self.model.clone(),
            rotational: self.rotational,
            removable: self.removable,
            mount: copy_mount(&self.mount),
            mount_inherited: self.mount_inherited,
        }
    }
}

/// Where the write passes of a device put their scratch file.
pub open spec fn scratch_dir(d: DeviceView) -> Option<Seq<char>> {
    match d.mount {
        Some(m) => if m.writable {
            Some(m.path)
        } else {
            None
        },
        None => None,
    }
}

/// Kind of medium.
pub open spec fn media_text(rotational: Option<bool>) -> Seq<char> {
    match rotational {
        Some(true) => "HDD"@,
        Some(false) => "SSD"@,
        None => "—"@,
    }
}

/// Why a device cannot be tested at all, if anything stands in the way.
pub open spec fn obstacle(d: DeviceView, readable: bool) -> Option<Seq<char>> {
    if d.size == 0 {
        Some("no media / zero size"@)
    } else if !readable {
        Some("no read permission on "@ + d.path + " — try running with sudo"@)
    } else {
        None
    }
}

impl Device {
    /// Scratch directory for the write passes, if one exists. A block device is
    /// never opened for writing: the write test always goes through a regular
    /// file on a mounted filesystem, which is what makes it non-destructive.
    pub fn write_dir(&self) -> (r: Option<&str>)
        ensures
            r.deep_view() == scratch_dir(self@),
    {
        match &self.mount {
            Some(m) => if m.writable {
                Some(m.path.as_str())
            } else {
                None
            },
            None => None,
        }
    }

    /// Kind of medium.
    pub fn media(&self) -> (r: &'static str)
        ensures
            r@ == media_text(self.rotational),
    {
        match self.rotational {
            Some(true) => "HDD",
            Some(false) => "SSD",
            None => "—",
        }
    }

    /// One-line reason the device cannot be tested at all, if any. Whether the
    /// raw device can be opened for reading is for the caller to find out; root
    /// is usually needed.
    pub fn blocker(&self, readable: bool) -> (r: Option<String>)
        ensures
            r.deep_view() == obstacle(self@, readable),
    {
        if self.size == 0 {
            return Some("no media / zero size".to_string());
        }
        if !readable {
            let mut s = "no read permission on ".to_string();
            s.append(self.path.as_str());
            s.append(" — try running with sudo");
            return Some(s);
        }
        None
    }
}

/// Names of the disks among some devices.
pub open spec fn disk_names(devices: Seq<DeviceView>) -> Seq<Seq<char>>
    decreases devices.len(),
{
    if devices.len() == 0 {
        Seq::empty()
    } else {
        let init = disk_names(devices.drop_last());
        if devices.last().kind == Kind::Disk {
            init.push(devices.last().name)
        } else {
            init
        }
    }
}

/// The longest of some names that `name` begins with.
pub open spec fn longest_prefix(name: Seq<char>, disks: Seq<Seq<char>>) -> Option<Seq<char>>
    decreases disks.len(),
{
    if disks.len() == 0 {
        None
    } else {
        let best = longest_prefix(name, disks.drop_last());
        if disks.last().is_prefix_of(name) && (best is None || best->0.len() <= disks.last().len()) {
            Some(disks.last())
        } else {
            best
        }
    }
}

/// The disk that a device is part of; itself where it is part of none.
pub open spec fn parent_of(name: Seq<char>, disks: Seq<Seq<char>>) -> Seq<char> {
    match longest_prefix(name, disks) {
        Some(d) => d,
        None => name,
    }
}

/// The disk that a device belongs to is one of the disks whose name begins the
/// device's own, and there is no longer one. A device that no disk's name
/// begins belongs to itself.
pub proof fn law_parent_is_the_longest_prefix(name: Seq<char>, disks: Seq<Seq<char>>)
    ensures
        parent_of(name, disks).is_prefix_of(name),
        parent_of(name, disks) == name || disks.contains(parent_of(name, disks)),
        (exists|i: int| 0 <= i < disks.len() && (#[trigger] disks[i]).is_prefix_of(name)) ==> disks.contains(
            parent_of(name, disks),
        ),
        forall|i: int|
            0 <= i < disks.len() && (#[trigger] disks[i]).is_prefix_of(name) ==> disks[i].len()
                <= parent_of(name, disks).len(),
{
    lemma_longest(name, disks);
}

proof fn lemma_longest(name: Seq<char>, disks: Seq<Seq<char>>)
    ensures
        match longest_prefix(name, disks) {
            Some(d) => {
                &&& d.is_prefix_of(name)
                &&& disks.contains(d)
                &&& forall|i: int|
                    0 <= i < disks.len() && (#[trigger] disks[i]).is_prefix_of(name)
                        ==> disks[i].len() <= d.len()
            },
            None => forall|i: int| 0 <= i < disks.len() ==> !(#[trigger] disks[i]).is_prefix_of(name),
        },
    decreases disks.len(),
{
    if disks.len() > 0 {
        let init = disks.drop_last();
        lemma_longest(name, init);
        assert forall|i: int| 0 <= i < disks.len() - 1 implies #[trigger] disks[i] == init[i] by {}
        match longest_prefix(name, init) {
            Some(d) => {
                let i = init.index_of(d);
                assert(disks[i] == d);
            },
            None => {},
        }
        assert(disks[disks.len() - 1] == disks.last());
    }
}

/// The disk that a device belongs to. The longest matching disk name wins:
/// `nvme0n1p1` belongs to `nvme0n1`, not to a hypothetical `nvme0`.
pub fn parent_disk(name: &str, disks: &Vec<String>) -> (r: String)
    ensures
        r@ == parent_of(name@, disks.deep_view()),
{
    let mut best: Option<usize> = None;
    let mut i: usize = 0;
    let ghost all = disks.deep_view();
    assert(all.take(0) =~= Seq::<Seq<char>>::empty());
    while i < disks.len()
        invariant
            i <= disks@.len(),
            all == disks.deep_view(),
            all.len() == disks@.len(),
            match best {
                Some(b) => b < i && longest_prefix(name@, all.take(i as int)) == Some(disks@[b as int]@),
                None => longest_prefix(name@, all.take(i as int)) is None,
            },
        decreases disks@.len() - i,
    {
        assert(all.take(i + 1).drop_last() =~= all.take(i as int));
        assert(all.take(i + 1).last() == disks@[i as int]@);
        if starts_with(name, disks[i].as_str()) {
            match best {
                Some(b) => {
                    if disks[b].as_str().unicode_len() <= disks[i].as_str().unicode_len() {
                        best = Some(i);
                    }
                },
                None => {
                    best = Some(i);
                },
            }
        }
        i += 1;
    }
    assert(all.take(i as int) =~= all);
    match best {
        Some(b) => disks[b].clone(),
        None => name.to_string(),
    }
}

/// Size of the last disk of a name, where there is one.
pub open spec fn disk_size(devices: Seq<DeviceView>, name: Seq<char>) -> Option<u64>
    decreases devices.len(),
{
    if devices.len() == 0 {
        None
    } else if devices.last().kind == Kind::Disk && devices.last().name == name {
        Some(devices.last().size)
    } else {
        disk_size(devices.drop_last(), name)
    }
}

/// What a device is ordered by.
pub ghost struct Place {
    /// Size of the disk it belongs to; larger ones come first.
    pub size: u64,
    /// Name of that disk.
    pub disk: Seq<char>,
    /// The disk comes before its partitions.
    pub partition: bool,
    pub name: Seq<char>,
}

/// The place of a device among some devices.
pub open spec fn place(d: DeviceView, devices: Seq<DeviceView>) -> Place {
    let parent = parent_of(d.name, disk_names(devices));
    match disk_size(devices, parent) {
        Some(size) => Place { size, disk: parent, partition: d.kind == Kind::Partition, name: d.name },
        None => Place { size: d.size, disk: d.name, partition: d.kind == Kind::Partition, name: d.name },
    }
}

/// Whether one place comes before another.
pub open spec fn ahead(a: Place, b: Place) -> bool {
    if a.size != b.size {
        a.size > b.size
    } else if a.disk != b.disk {
        before(a.disk, b.disk)
    } else if a.partition != b.partition {
        b.partition
    } else {
        before(a.name, b.name)
    }
}

proof fn lemma_ahead(a: Place, b: Place, c: Place)
    ensures
        !(ahead(a, b) && ahead(b, a)),
        ahead(a, c) ==> ahead(a, b) || ahead(b, c),
{
    law_before_is_an_order(a.disk, b.disk, c.disk);
    law_before_is_an_order(a.name, b.name, c.name);
    law_before_is_an_order(b.disk, c.disk, a.disk);
    law_before_is_an_order(a.disk, c.disk, b.disk);
    law_before_is_an_order(b.name, c.name, a.name);
}

/// What a device is ordered by.
struct Key {
    size: u64,
    disk: String,
    partition: bool,
    name: String,
}

impl View for Key {
    type V = Place;

    closed spec fn view(&self) -> Place {
        Place { size: self.size, disk: self.disk@, partition: self.partition, name: self.name@ }
    }
}

impl DeepView for Key {
    type V = Place;

    closed spec fn deep_view(&self) -> Place {
        self@
    }
}

impl Key {
    fn is_ahead(&self, other: &Key) -> (r: bool)
        ensures
            r == ahead(self@, other@),
    {
        if self.size != other.size {
            self.size > other.size
        } else if !same(self.disk.as_str(), other.disk.as_str()) {
            is_before(self.disk.as_str(), other.disk.as_str())
        } else if self.partition != other.partition {
            other.partition
        } else {
            is_before(self.name.as_str(), other.name.as_str())
        }
    }
}

/// Names of the disks among some devices.
fn list_disks(devices: &Vec<Device>) -> (r: Vec<String>)
    ensures
        r.deep_view() == disk_names(devices.deep_view()),
{
    let ghost all = devices.deep_view();
    let mut out: Vec<String> = Vec::new();
    let mut i: usize = 0;
    assert(out.deep_view() =~= disk_names(all.take(0)));
    while i < devices.len()
        invariant
            i <= devices@.len(),
            all == devices.deep_view(),
            all.len() == devices@.len(),
            out.deep_view() == disk_names(all.take(i as int)),
        decreases devices@.len() - i,
    {
        let ghost names = out.deep_view();
        assert(all.take(i + 1).drop_last() =~= all.take(i as int));
        assert(all.take(i + 1).last() == devices@[i as int]@);
        if devices[i].kind == Kind::Disk {
            out.push(devices[i].name.clone());
            assert(out.deep_view() =~= names.push(devices@[i as int]@.name));
        }
        i += 1;
    }
    assert(all.take(i as int) =~= all);
    out
}

/// Size of the last disk of a name.
fn find_size(devices: &Vec<Device>, name: &str) -> (r: Option<u64>)
    ensures
        r == disk_size(devices.deep_view(), name@),
{
    let ghost all = devices.deep_view();
    let mut i: usize = devices.len();
    assert(all.take(i as int) =~= all);
    while i > 0
        invariant
            i <= devices@.len(),
            all == devices.deep_view(),
            all.len() == devices@.len(),
            disk_size(all, name@) == disk_size(all.take(i as int), name@),
        decreases i,
    {
        assert(all.take(i as int).drop_last() =~= all.take(i - 1));
        assert(all.take(i as int).last() == devices@[i - 1]@);
        let d = &devices[i - 1];
        if d.kind == Kind::Disk && same(d.name.as_str(), name) {
            return Some(d.size);
        }
        i -= 1;
    }
    None
}

fn key_of(d: &Device, devices: &Vec<Device>, disks: &Vec<String>) -> (r: Key)
    requires
        disks.deep_view() == disk_names(devices.deep_view()),
    ensures
        r@ == place(d@, devices.deep_view()),
{
    let parent = parent_disk(d.name.as_str(), disks);
    let partition = d.kind == Kind::Partition;
    match find_size(devices, parent.as_str()) {
        Some(size) => Key { size, disk: parent, partition, name: d.name.clone() },
        None => Key { size: d.size, disk: d.name.clone(), partition, name: d.name.clone() },
    }
}

/// Whether `p` lists places in their order: none stands behind one that it is
/// ahead of, and equal ones keep the order in which they were found.
pub open spec fn in_order(p: Seq<int>, places: Seq<Place>) -> bool {
    forall|i: int, j: int|
        #![trigger p[i], p[j]]
        0 <= i < j < p.len() ==> !ahead(places[p[j]], places[p[i]]) && (ahead(
            places[p[i]],
            places[p[j]],
        ) || p[i] < p[j])
}

/// Whether `p` lists each of the first `n` numbers once.
pub open spec fn rearranges(p: Seq<int>, n: int) -> bool {
    &&& p.len() == n
    &&& p.no_duplicates()
    &&& forall|i: int| 0 <= i < p.len() ==> 0 <= #[trigger] p[i] < n
}

/// The numbers of the places, in the order of the places.
fn order_of(keys: &Vec<Key>) -> (r: Vec<usize>)
    ensures
        r@.len() == keys@.len(),
        rearranges(r@.map_values(|k: usize| k as int), keys@.len() as int),
        in_order(r@.map_values(|k: usize| k as int), keys.deep_view()),
{
    let mut order: Vec<usize> = Vec::new();
    let mut i: usize = 0;
    let ghost places = keys.deep_view();
    let ghost mut p: Seq<int> = Seq::empty();
    while i < keys.len()
        invariant
            i <= keys@.len(),
            places == keys.deep_view(),
            places.len() == keys@.len(),
            order@.len() == i,
            p.len() == i,
            forall|k: int| 0 <= k < i ==> p[k] == #[trigger] order@[k],
            rearranges(p, i as int),
            in_order(p, places),
        decreases keys@.len() - i,
    {
        let mut j: usize = i;
        while j > 0 && keys[i].is_ahead(&keys[order[j - 1]])
            invariant
                j <= i < keys@.len(),
                places == keys.deep_view(),
                places.len() == keys@.len(),
                order@.len() == i,
                p.len() == i,
                forall|k: int| 0 <= k < i ==> p[k] == #[trigger] order@[k],
                rearranges(p, i as int),
                forall|k: int| j <= k < i ==> ahead(places[i as int], places[#[trigger] p[k]]),
            ensures
                j <= i,
                forall|k: int| j <= k < i ==> ahead(places[i as int], places[#[trigger] p[k]]),
                j > 0 ==> !ahead(places[i as int], places[p[j - 1]]),
            decreases j,
        {
            j -= 1;
        }
        let ghost q = p.insert(j as int, i as int);
        proof {
            assert forall|k: int| 0 <= k < j implies !ahead(places[i as int], places[#[trigger] p[k]]) by {
                if k < j - 1 {
                    lemma_ahead(places[i as int], places[p[j - 1]], places[p[k]]);
                }
            }
            assert forall|k: int| j <= k < i implies !ahead(places[#[trigger] p[k]], places[i as int]) by {
                lemma_ahead(places[i as int], places[p[k]], places[i as int]);
            }
            assert forall|a: int, b: int| #![trigger q[a], q[b]] 0 <= a < b < q.len() implies !ahead(
                places[q[b]],
                places[q[a]],
            ) && (ahead(places[q[a]], places[q[b]]) || q[a] < q[b]) by {
                let x = if a < j {
                    a
                } else {
                    a - 1
                };
                let y = if b < j {
                    b
                } else {
                    b - 1
                };
                if a != j {
                    assert(q[a] == p[x]);
                }
                if b != j {
                    assert(q[b] == p[y]);
                }
            }
            assert(q.no_duplicates()) by {
                assert forall|a: int, b: int| 0 <= a < q.len() && 0 <= b < q.len() && a != b implies q[a]
                    != q[b] by {
                    let x = if a < j {
                        a
                    } else {
                        a - 1
                    };
                    let y = if b < j {
                        b
                    } else {
                        b - 1
                    };
                    if a != j {
                        assert(q[a] == p[x]);
                    }
                    if b != j {
                        assert(q[b] == p[y]);
                    }
                }
            }
            assert forall|a: int| 0 <= a < q.len() implies 0 <= #[trigger] q[a] < i + 1 by {
                if a < j {
                    assert(q[a] == p[a]);
                } else if a > j {
                    assert(q[a] == p[a - 1]);
                }
            }
        }
        let ghost old_order = order@;
        order.insert(j, i);
        proof {
            assert forall|k: int| 0 <= k < i + 1 implies q[k] == #[trigger] order@[k] by {
                if k < j {
                    assert(order@[k] == old_order[k]);
                } else if k > j {
                    assert(order@[k] == old_order[k - 1]);
                }
            }
            p = q;
        }
        i += 1;
    }
    assert(order@.map_values(|k: usize| k as int) =~= p);
    order
}

/// The places of all devices of a list, in the order of the list.
pub open spec fn places(devices: Seq<DeviceView>) -> Seq<Place> {
    Seq::new(devices.len(), |i: int| place(devices[i], devices))
}

/// Whether `sorted` holds the devices of `found` in the order of their places.
pub open spec fn sorted_by_place(found: Seq<DeviceView>, sorted: Seq<DeviceView>) -> bool {
    exists|p: Seq<int>|
        #![trigger rearranges(p, found.len() as int)]
        {
            &&& rearranges(p, found.len() as int)
            &&& in_order(p, places(found))
            &&& sorted == Seq::new(p.len(), |i: int| found[p[i]])
        }
}

proof fn lemma_rearrangement_holds_all(p: Seq<int>, n: int, x: int)
    requires
        rearranges(p, n),
        0 <= x < n,
    ensures
        p.contains(x),
{
    let all = vstd::set_lib::set_int_range(0, n);
    vstd::set_lib::lemma_int_range(0, n);
    p.unique_seq_to_set();
    assert(p.to_set().subset_of(all));
    vstd::set_lib::lemma_len_subset(p.to_set(), all);
    vstd::set_lib::lemma_subset_equality(p.to_set(), all);
    assert(p.to_set().contains(x));
}

proof fn lemma_same_order(p: Seq<int>, q: Seq<int>, places: Seq<Place>, k: int)
    requires
        rearranges(p, places.len() as int),
        rearranges(q, places.len() as int),
        in_order(p, places),
        in_order(q, places),
        0 <= k <= places.len(),
    ensures
        forall|i: int| 0 <= i < k ==> p[i] == q[i],
    decreases k,
{
    if k > 0 {
        let n = places.len() as int;
        let m = k - 1;
        lemma_same_order(p, q, places, m);
        lemma_rearrangement_holds_all(q, n, p[m]);
        lemma_rearrangement_holds_all(p, n, q[m]);
        let j = q.index_of(p[m]);
        let i = p.index_of(q[m]);
        if p[m] != q[m] {
            if j < m {
                assert(p[j] == p[m]);
            }
            if i < m {
                assert(q[i] == q[m]);
            }
            assert(m < j && m < i);
            assert(!ahead(places[q[j]], places[q[m]]) && !ahead(places[p[i]], places[p[m]]));
            assert(q[m] < q[j] || ahead(places[q[m]], places[q[j]]));
            assert(p[m] < p[i] || ahead(places[p[m]], places[p[i]]));
        }
    }
}

/// There is one way only to sort a list of devices: even those that nothing
/// tells apart keep the order in which they were found.
pub proof fn law_sorted_order_is_unique(found: Seq<DeviceView>, a: Seq<DeviceView>, b: Seq<DeviceView>)
    requires
        sorted_by_place(found, a),
        sorted_by_place(found, b),
    ensures
        a == b,
{
    let n = found.len() as int;
    let p = choose|p: Seq<int>|
        #![trigger rearranges(p, n)]
        rearranges(p, n) && in_order(p, places(found)) && a == Seq::new(p.len(), |i: int| found[p[i]]);
    let q = choose|q: Seq<int>|
        #![trigger rearranges(q, n)]
        rearranges(q, n) && in_order(q, places(found)) && b == Seq::new(q.len(), |i: int| found[q[i]]);
    lemma_same_order(p, q, places(found), n);
    assert(p =~= q);
}

/// Disks descend by size; each disk's partitions follow it in name order, so
/// the list reads as a tree even though it is flat.
pub fn sort_devices(devices: &mut Vec<Device>)
    ensures
        sorted_by_place(old(devices).deep_view(), final(devices).deep_view()),
        final(devices)@.len() == old(devices)@.len(),
{
    let ghost found = devices.deep_view();
    let disks = list_disks(devices);
    let mut keys: Vec<Key> = Vec::new();
    let mut i: usize = 0;
    while i < devices.len()
        invariant
            i <= devices@.len(),
            found == devices.deep_view(),
            found.len() == devices@.len(),
            disks.deep_view() == disk_names(found),
            keys@.len() == i,
            forall|k: int| 0 <= k < i ==> (#[trigger] keys@[k])@ == places(found)[k],
        decreases devices@.len() - i,
    {
        let key = key_of(&devices[i], devices, &disks);
        assert(found[i as int] == devices@[i as int]@);
        keys.push(key);
        i += 1;
    }
    assert(keys.deep_view() =~= places(found));
    let order = order_of(&keys);
    let ghost p = order@.map_values(|k: usize| k as int);
    let mut out: Vec<Device> = Vec::new();
    let mut j: usize = 0;
    while j < order.len()
        invariant
            j <= order@.len(),
            found == devices.deep_view(),
            found.len() == devices@.len(),
            p == order@.map_values(|k: usize| k as int),
            rearranges(p, found.len() as int),
            out@.len() == j,
            forall|k: int| 0 <= k < j ==> (#[trigger] out@[k])@ == found[p[k]],
        decreases order@.len() - j,
    {
        assert(p[j as int] == order@[j as int] as int);
        let d = devices[order[j]].clone();
        out.push(d);
        j += 1;
    }
    assert(out.deep_view() =~= Seq::new(p.len(), |i: int| found[p[i]]));
    assert(rearranges(p, found.len() as int));
    *devices = out;
}

proof fn lemma_disk_is_listed(devices: Seq<DeviceView>, d: int)
    requires
        0 <= d < devices.len(),
        devices[d].kind == Kind::Disk,
    ensures
        disk_names(devices).contains(devices[d].name),
        disk_size(devices, devices[d].name) is Some,
    decreases devices.len(),
{
    let init = disk_names(devices.drop_last());
    if d == devices.len() - 1 {
        assert(disk_names(devices)[init.len() as int] == devices[d].name);
    } else {
        lemma_disk_is_listed(devices.drop_last(), d);
        let i = init.index_of(devices[d].name);
        assert(disk_names(devices)[i] == devices[d].name);
    }
}

/// A disk comes before each of its partitions, and nothing comes in between but
/// what belongs to the same disk.
pub proof fn law_partitions_follow_their_disk(devices: Seq<DeviceView>, d: int, p: int, x: Place)
    requires
        0 <= d < devices.len(),
        0 <= p < devices.len(),
        devices[d].kind == Kind::Disk,
        devices[p].kind == Kind::Partition,
        parent_of(devices[p].name, disk_names(devices)) == devices[d].name,
    ensures
        ahead(place(devices[d], devices), place(devices[p], devices)),
        !ahead(x, place(devices[d], devices)) && !ahead(place(devices[p], devices), x) ==> x.disk
            == devices[d].name,
{
    let disks = disk_names(devices);
    let name = devices[d].name;
    lemma_disk_is_listed(devices, d);
    law_parent_is_the_longest_prefix(name, disks);
    let i = disks.index_of(name);
    assert(disks[i].is_prefix_of(name)) by {
        assert(name.subrange(0, name.len() as int) =~= name);
    }
    let own = parent_of(name, disks);
    assert(own.len() == name.len());
    assert(own =~= name) by {
        assert(name.subrange(0, own.len() as int) =~= name);
    }
    law_before_is_an_order(x.disk, name, name);
}

/// The mount with the most free space among the writable ones of a disk's own
/// partitions, the last of those that have the same.
pub open spec fn best_mount(devices: Seq<DeviceView>, disks: Seq<Seq<char>>, disk: Seq<char>) -> Option<
    MountView,
>
    decreases devices.len(),
{
    if devices.len() == 0 {
        None
    } else {
        let best = best_mount(devices.drop_last(), disks, disk);
        let d = devices.last();
        if d.kind == Kind::Partition && parent_of(d.name, disks) == disk && d.mount is Some && d.mount->0.writable
            && (best is None || best->0.free <= d.mount->0.free) {
            d.mount
        } else {
            best
        }
    }
}

/// The first device of a name.
pub open spec fn first_named(devices: Seq<DeviceView>, name: Seq<char>, from: int) -> Option<int>
    decreases devices.len() - from,
{
    if from < 0 || from >= devices.len() {
        None
    } else if devices[from].name == name {
        Some(from)
    } else {
        first_named(devices, name, from + 1)
    }
}

/// The devices once a disk has borrowed a mount from its partitions, if they
/// have one to lend.
pub open spec fn lent(devices: Seq<DeviceView>, disks: Seq<Seq<char>>, disk: Seq<char>) -> Seq<DeviceView> {
    match (best_mount(devices, disks, disk), first_named(devices, disk, 0)) {
        (Some(m), Some(i)) => devices.update(
            i,
            DeviceView { mount: Some(m), mount_inherited: true, ..devices[i] },
        ),
        _ => devices,
    }
}

/// Names of the disks that are not mounted.
pub open spec fn unmounted(devices: Seq<DeviceView>) -> Seq<Seq<char>>
    decreases devices.len(),
{
    if devices.len() == 0 {
        Seq::empty()
    } else {
        let init = unmounted(devices.drop_last());
        if devices.last().kind == Kind::Disk && devices.last().mount is None {
            init.push(devices.last().name)
        } else {
            init
        }
    }
}

/// The devices once each of some disks has borrowed a mount.
pub open spec fn all_lent(devices: Seq<DeviceView>, disks: Seq<Seq<char>>, wanting: Seq<Seq<char>>) -> Seq<
    DeviceView,
>
    decreases wanting.len(),
{
    if wanting.len() == 0 {
        devices
    } else {
        lent(all_lent(devices, disks, wanting.drop_last()), disks, wanting.last())
    }
}

/// The devices once every unmounted disk has borrowed a mount.
pub open spec fn with_inherited(devices: Seq<DeviceView>) -> Seq<DeviceView> {
    all_lent(devices, disk_names(devices), unmounted(devices))
}

fn find_best(devices: &Vec<Device>, disks: &Vec<String>, disk: &str) -> (r: Option<Mount>)
    ensures
        r.deep_view() == best_mount(devices.deep_view(), disks.deep_view(), disk@),
{
    let ghost all = devices.deep_view();
    let mut best: Option<Mount> = None;
    let mut i: usize = 0;
    while i < devices.len()
        invariant
            i <= devices@.len(),
            all == devices.deep_view(),
            all.len() == devices@.len(),
            best.deep_view() == best_mount(all.take(i as int), disks.deep_view(), disk@),
        decreases devices@.len() - i,
    {
        let d = &devices[i];
        assert(all.take(i + 1).drop_last() =~= all.take(i as int));
        assert(all.take(i + 1).last() == d@);
        if d.kind == Kind::Partition && same(parent_disk(d.name.as_str(), disks).as_str(), disk) {
            if let Some(m) = &d.mount {
                if m.writable {
                    let better = match &best {
                        Some(b) => b.free <= m.free,
                        None => true,
                    };
                    if better {
                        best = Some(m.clone());
                    }
                }
            }
        }
        i += 1;
    }
    assert(all.take(i as int) =~= all);
    best
}

fn find_named(devices: &Vec<Device>, name: &str) -> (r: Option<usize>)
    ensures
        match r {
            Some(i) => i < devices@.len() && first_named(devices.deep_view(), name@, 0) == Some(i as int),
            None => first_named(devices.deep_view(), name@, 0) is None,
        },
{
    let ghost all = devices.deep_view();
    let mut i: usize = 0;
    while i < devices.len()
        invariant
            i <= devices@.len(),
            all == devices.deep_view(),
            all.len() == devices@.len(),
            first_named(all, name@, 0) == first_named(all, name@, i as int),
        decreases devices@.len() - i,
    {
        assert(all[i as int] == devices@[i as int]@);
        if same(devices[i].name.as_str(), name) {
            return Some(i);
        }
        i += 1;
    }
    None
}

fn list_unmounted(devices: &Vec<Device>) -> (r: Vec<String>)
    ensures
        r.deep_view() == unmounted(devices.deep_view()),
{
    let ghost all = devices.deep_view();
    let mut out: Vec<String> = Vec::new();
    let mut i: usize = 0;
    assert(out.deep_view() =~= unmounted(all.take(0)));
    while i < devices.len()
        invariant
            i <= devices@.len(),
            all == devices.deep_view(),
            all.len() == devices@.len(),
            out.deep_view() == unmounted(all.take(i as int)),
        decreases devices@.len() - i,
    {
        let ghost names = out.deep_view();
        assert(all.take(i + 1).drop_last() =~= all.take(i as int));
        assert(all.take(i + 1).last() == devices@[i as int]@);
        if devices[i].kind == Kind::Disk && devices[i].mount.is_none() {
            out.push(devices[i].name.clone());
            assert(out.deep_view() =~= names.push(devices@[i as int]@.name));
        }
        i += 1;
    }
    assert(all.take(i as int) =~= all);
    out
}

/// Gives each unmounted disk a scratch location borrowed from one of its own
/// partitions, so that selecting a whole disk still runs the write passes, and
/// still writes to the same physical device being measured. The mount with the
/// most free space wins: the scratch file needs room.
pub fn inherit_mounts(devices: &mut Vec<Device>)
    ensures
        final(devices).deep_view() == with_inherited(old(devices).deep_view()),
{
    let ghost found = devices.deep_view();
    let disks = list_disks(devices);
    let wanting = list_unmounted(devices);
    let ghost names = wanting.deep_view();
    let mut i: usize = 0;
    assert(names.take(0) =~= Seq::<Seq<char>>::empty());
    while i < wanting.len()
        invariant
            i <= wanting@.len(),
            names == wanting.deep_view(),
            names.len() == wanting@.len(),
            devices.deep_view() == all_lent(found, disks.deep_view(), names.take(i as int)),
        decreases wanting@.len() - i,
    {
        let ghost before = devices.deep_view();
        assert(names.take(i + 1).drop_last() =~= names.take(i as int));
        assert(names.take(i + 1).last() == wanting@[i as int]@);
        let best = find_best(devices, &disks, wanting[i].as_str());
        let at = find_named(devices, wanting[i].as_str());
        if let Some(mount) = best {
            if let Some(k) = at {
                let mut d = devices[k].clone();
                assert(before[k as int] == devices@[k as int]@);
                d.mount = Some(mount);
                d.mount_inherited = true;
                devices.set(k, d);
                assert(devices.deep_view() =~= before.update(k as int, d@));
            }
        }
        i += 1;
    }
    assert(names.take(i as int) =~= names);
}

proof fn lemma_lent_shape(devices: Seq<DeviceView>, disks: Seq<Seq<char>>, disk: Seq<char>)
    ensures
        lent(devices, disks, disk).len() == devices.len(),
        forall|i: int|
            0 <= i < devices.len() ==> {
                let r = #[trigger] lent(devices, disks, disk)[i];
                ||| r == devices[i]
                ||| r == (DeviceView { mount: r.mount, mount_inherited: true, ..devices[i] }) && r.name == disk
                    && r.mount == best_mount(devices, disks, disk) && r.mount is Some
            },
{
    lemma_first_named(devices, disk, 0);
}

proof fn lemma_first_named(devices: Seq<DeviceView>, name: Seq<char>, from: int)
    requires
        from >= 0,
    ensures
        match first_named(devices, name, from) {
            Some(i) => from <= i < devices.len() && devices[i].name == name,
            None => true,
        },
    decreases devices.len() - from,
{
    if from < devices.len() && devices[from].name != name {
        lemma_first_named(devices, name, from + 1);
    }
}

/// Whether a device can lend its mount to a disk: a partition of that disk, with
/// a filesystem that can be written to.
pub open spec fn lends(d: DeviceView, disks: Seq<Seq<char>>, disk: Seq<char>) -> bool {
    &&& d.kind == Kind::Partition
    &&& parent_of(d.name, disks) == disk
    &&& d.mount is Some
    &&& d.mount->0.writable
}

proof fn lemma_best_mount(devices: Seq<DeviceView>, disks: Seq<Seq<char>>, disk: Seq<char>)
    ensures
        match best_mount(devices, disks, disk) {
            Some(m) => {
                &&& m.writable
                &&& exists|i: int|
                    0 <= i < devices.len() && (#[trigger] devices[i]).kind == Kind::Partition && parent_of(
                        devices[i].name,
                        disks,
                    ) == disk && devices[i].mount == Some(m)
                &&& forall|i: int|
                    0 <= i < devices.len() && lends(#[trigger] devices[i], disks, disk)
                        ==> devices[i].mount->0.free <= m.free
            },
            None => forall|i: int|
                0 <= i < devices.len() ==> !lends(#[trigger] devices[i], disks, disk),
        },
    decreases devices.len(),
{
    if devices.len() > 0 {
        let init = devices.drop_last();
        lemma_best_mount(init, disks, disk);
        let best = best_mount(init, disks, disk);
        if best is Some {
            let i = choose|i: int|
                0 <= i < init.len() && (#[trigger] init[i]).kind == Kind::Partition && parent_of(
                    init[i].name,
                    disks,
                ) == disk && init[i].mount == best;
            assert(devices[i].mount == best);
        }
        assert(devices[devices.len() - 1] == devices.last());
        assert forall|i: int| 0 <= i < devices.len() - 1 implies #[trigger] devices[i] == init[i] by {}
    }
}

/// A borrowed mount is a writable one, and it comes from a partition of the
/// very disk that borrows it.
pub proof fn law_mounts_are_borrowed_from_own_partitions(
    devices: Seq<DeviceView>,
    disks: Seq<Seq<char>>,
    disk: Seq<char>,
    i: int,
)
    requires
        0 <= i < devices.len(),
        lent(devices, disks, disk)[i] != devices[i],
    ensures
        lent(devices, disks, disk)[i].name == disk,
        scratch_dir(lent(devices, disks, disk)[i]) is Some,
        exists|k: int|
            0 <= k < devices.len() && (#[trigger] devices[k]).kind == Kind::Partition && parent_of(
                devices[k].name,
                disks,
            ) == disk && devices[k].mount == lent(devices, disks, disk)[i].mount,
{
    lemma_lent_shape(devices, disks, disk);
    lemma_best_mount(devices, disks, disk);
}

proof fn lemma_unmounted(devices: Seq<DeviceView>, name: Seq<char>)
    requires
        unmounted(devices).contains(name),
    ensures
        exists|k: int|
            0 <= k < devices.len() && (#[trigger] devices[k]).kind == Kind::Disk && devices[k].mount is None
                && devices[k].name == name,
    decreases devices.len(),
{
    if devices.len() > 0 {
        let init = devices.drop_last();
        let i = unmounted(devices).index_of(name);
        if i < unmounted(init).len() {
            assert(unmounted(init)[i] == name);
            lemma_unmounted(init, name);
            let k = choose|k: int|
                0 <= k < init.len() && (#[trigger] init[k]).kind == Kind::Disk && init[k].mount is None
                    && init[k].name == name;
            assert(devices[k].name == name);
        } else {
            assert(devices[devices.len() - 1].name == name);
        }
    }
}

proof fn lemma_others_stay(
    devices: Seq<DeviceView>,
    disks: Seq<Seq<char>>,
    wanting: Seq<Seq<char>>,
    i: int,
)
    requires
        0 <= i < devices.len(),
        !wanting.contains(devices[i].name),
    ensures
        all_lent(devices, disks, wanting).len() == devices.len(),
        all_lent(devices, disks, wanting)[i] == devices[i],
    decreases wanting.len(),
{
    if wanting.len() > 0 {
        let init = wanting.drop_last();
        assert(!init.contains(devices[i].name)) by {
            if init.contains(devices[i].name) {
                let k = init.index_of(devices[i].name);
                assert(wanting[k] == devices[i].name);
            }
        }
        lemma_others_stay(devices, disks, init, i);
        assert(wanting[wanting.len() - 1] == wanting.last());
        lemma_lent_shape(all_lent(devices, disks, init), disks, wanting.last());
    }
}

/// Only an unmounted disk borrows a mount: where no two devices have the same
/// name, partitions and mounted disks stay as they are.
pub proof fn law_only_unmounted_disks_borrow(devices: Seq<DeviceView>, i: int)
    requires
        0 <= i < devices.len(),
        forall|j: int, k: int|
            0 <= j < devices.len() && 0 <= k < devices.len() && j != k ==> (#[trigger] devices[j]).name
                != (#[trigger] devices[k]).name,
        devices[i].kind == Kind::Partition || devices[i].mount is Some,
    ensures
        with_inherited(devices)[i] == devices[i],
{
    let name = devices[i].name;
    if unmounted(devices).contains(name) {
        lemma_unmounted(devices, name);
        let k = choose|k: int|
            0 <= k < devices.len() && (#[trigger] devices[k]).kind == Kind::Disk && devices[k].mount is None
                && devices[k].name == name;
        assert(devices[k].name == devices[i].name);
    }
    lemma_others_stay(devices, disk_names(devices), unmounted(devices), i);
}

/// The devices that have a size.
pub open spec fn sizeable(devices: Seq<DeviceView>) -> Seq<DeviceView> {
    devices.filter(|d: DeviceView| d.size > 0)
}

/// Candidate devices among those found, largest disks first, partitions under
/// them. Devices without media are left out.
pub fn enumerate(found: Vec<Device>) -> (r: Vec<Device>)
    ensures
        exists|sorted: Seq<DeviceView>|
            #[trigger] sorted_by_place(sizeable(found.deep_view()), sorted) && r.deep_view()
                == with_inherited(sorted),
{
    let ghost all = found.deep_view();
    let ghost pred = |d: DeviceView| d.size > 0;
    let mut devices: Vec<Device> = Vec::new();
    let mut i: usize = 0;
    assert(all.take(0).filter(pred) =~= Seq::<DeviceView>::empty()) by {
        reveal(Seq::filter);
    }
    assert(devices.deep_view() =~= all.take(0).filter(pred));
    while i < found.len()
        invariant
            i <= found@.len(),
            all == found.deep_view(),
            all.len() == found@.len(),
            pred == (|d: DeviceView| d.size > 0),
            devices.deep_view() == all.take(i as int).filter(pred),
        decreases found@.len() - i,
    {
        let ghost kept = devices.deep_view();
        proof {
            assert(all[i as int] == found@[i as int]@);
            assert(all.take(i + 1) =~= all.take(i as int).push(all[i as int]));
            all.take(i as int).lemma_filter_push(all[i as int], pred);
        }
        if found[i].size > 0 {
            devices.push(found[i].clone());
            assert(devices.deep_view() =~= kept.push(all[i as int]));
        }
        i += 1;
    }
    assert(all.take(i as int) =~= all);
    assert(devices.deep_view() == sizeable(all));
    sort_devices(&mut devices);
    let ghost sorted = devices.deep_view();
    assert(sorted_by_place(sizeable(all), sorted));
    inherit_mounts(&mut devices);
    devices
}

/// Whether no two devices have the same name.
pub open spec fn named_apart(devices: Seq<DeviceView>) -> bool {
    forall|j: int, k: int|
        0 <= j < devices.len() && 0 <= k < devices.len() && j != k ==> (#[trigger] devices[j]).name
            != (#[trigger] devices[k]).name
}

/// Whether a disk has what its partitions can lend it: the mount with the most
/// free space among theirs that can be written to, or none where there is none
/// of these. Nothing else of it is changed.
pub open spec fn has_borrowed(devices: Seq<DeviceView>, disks: Seq<Seq<char>>, i: int, r: DeviceView) -> bool {
    &&& r == (DeviceView { mount: r.mount, mount_inherited: r.mount_inherited, ..devices[i] })
    &&& forall|k: int|
        0 <= k < devices.len() && lends(#[trigger] devices[k], disks, devices[i].name) ==> r.mount is Some
            && devices[k].mount->0.free <= r.mount->0.free
    &&& match r.mount {
        Some(m) => r.mount_inherited && exists|k: int|
            0 <= k < devices.len() && lends(#[trigger] devices[k], disks, devices[i].name)
                && devices[k].mount == Some(m),
        None => r == devices[i],
    }
}

proof fn lemma_first_is_found(devices: Seq<DeviceView>, name: Seq<char>, from: int, at: int)
    requires
        0 <= from <= at < devices.len(),
        devices[at].name == name,
    ensures
        first_named(devices, name, from) is Some,
    decreases at - from,
{
    if devices[from].name != name {
        lemma_first_is_found(devices, name, from + 1, at);
    }
}

#[verifier::rlimit(60)]
proof fn lemma_borrowing(devices: Seq<DeviceView>, disks: Seq<Seq<char>>, wanting: Seq<Seq<char>>, i: int)
    requires
        named_apart(devices),
        0 <= i < devices.len(),
        forall|n: Seq<char>| #[trigger]
            wanting.contains(n) ==> exists|k: int|
                0 <= k < devices.len() && (#[trigger] devices[k]).kind == Kind::Disk && devices[k].mount is None
                    && devices[k].name == n,
    ensures
        all_lent(devices, disks, wanting).len() == devices.len(),
        all_lent(devices, disks, wanting)[i].name == devices[i].name,
        all_lent(devices, disks, wanting)[i].kind == devices[i].kind,
        !wanting.contains(devices[i].name) ==> all_lent(devices, disks, wanting)[i] == devices[i],
        devices[i].kind == Kind::Partition ==> all_lent(devices, disks, wanting)[i] == devices[i],
        wanting.contains(devices[i].name) ==> has_borrowed(
            devices,
            disks,
            i,
            all_lent(devices, disks, wanting)[i],
        ),
    decreases wanting.len(), 0int,
{
    if wanting.len() > 0 {
        let init = wanting.drop_last();
        let disk = wanting.last();
        assert(wanting[wanting.len() - 1] == disk);
        assert forall|n: Seq<char>| #[trigger] init.contains(n) implies wanting.contains(n) by {
            let k = init.index_of(n);
            assert(wanting[k] == n);
        }
        lemma_borrowing(devices, disks, init, i);
        let cur = all_lent(devices, disks, init);
        assert forall|k: int| 0 <= k < devices.len() implies (#[trigger] cur[k]).name == devices[k].name
            && cur[k].kind == devices[k].kind && (devices[k].kind == Kind::Partition ==> cur[k] == devices[k]) by {
            lemma_borrowing(devices, disks, init, k);
        }
        lemma_lent_shape(cur, disks, disk);
        lemma_first_named(cur, disk, 0);
        lemma_best_mount(cur, disks, disk);
        assert(wanting.contains(disk));
        let at = choose|k: int|
            0 <= k < devices.len() && (#[trigger] devices[k]).kind == Kind::Disk && devices[k].mount is None
                && devices[k].name == disk;
        lemma_first_is_found(cur, disk, 0, at);
        let first = first_named(cur, disk, 0)->0;
        assert(cur[first].name == devices[first].name);
        assert(first == at) by {
            if first != at {
                assert(devices[first].name != devices[at].name);
            }
        }
        let next = all_lent(devices, disks, wanting);
        assert(next == lent(cur, disks, disk));
        if i != at {
            assert(devices[i].name != devices[at].name);
            assert(next[i] == cur[i]);
            if wanting.contains(devices[i].name) {
                let k = wanting.index_of(devices[i].name);
                assert(init[k] == devices[i].name);
            }
        } else {
            assert forall|k: int| 0 <= k < devices.len() && lends(#[trigger] devices[k], disks, disk) implies
                next[i].mount is Some && devices[k].mount->0.free <= next[i].mount->0.free by {
                assert(cur[k] == devices[k]);
                assert(lends(cur[k], disks, disk));
            }
            match best_mount(cur, disks, disk) {
                Some(m) => {
                    let k = choose|k: int|
                        0 <= k < cur.len() && (#[trigger] cur[k]).kind == Kind::Partition && parent_of(
                            cur[k].name,
                            disks,
                        ) == disk && cur[k].mount == Some(m);
                    assert(cur[k] == devices[k]);
                    assert(lends(devices[k], disks, disk));
                },
                None => {
                    assert(next[i] == cur[i]);
                    if init.contains(devices[i].name) {
                    } else {
                        assert(cur[i] == devices[i]);
                    }
                },
            }
        }
    }
}

proof fn lemma_disk_wants(devices: Seq<DeviceView>, i: int)
    requires
        0 <= i < devices.len(),
        devices[i].kind == Kind::Disk,
        devices[i].mount is None,
    ensures
        unmounted(devices).contains(devices[i].name),
    decreases devices.len(),
{
    let init = unmounted(devices.drop_last());
    if i == devices.len() - 1 {
        assert(unmounted(devices)[init.len() as int] == devices[i].name);
    } else {
        lemma_disk_wants(devices.drop_last(), i);
        let k = init.index_of(devices[i].name);
        assert(unmounted(devices)[k] == devices[i].name);
    }
}

/// A disk that is not mounted borrows the mount with the most free space among
/// those of its own partitions that can be written to: none of these has more,
/// and where there is one at all the disk has a mount. Whatever else is known of
/// the disk stays as it is, and so do all partitions and mounted disks.
pub proof fn law_disk_borrows_the_roomiest_mount(devices: Seq<DeviceView>, i: int)
    requires
        named_apart(devices),
        0 <= i < devices.len(),
    ensures
        with_inherited(devices).len() == devices.len(),
        devices[i].kind == Kind::Disk && devices[i].mount is None ==> has_borrowed(
            devices,
            disk_names(devices),
            i,
            with_inherited(devices)[i],
        ),
        devices[i].kind == Kind::Partition || devices[i].mount is Some ==> with_inherited(devices)[i]
            == devices[i],
{
    let wanting = unmounted(devices);
    assert forall|n: Seq<char>| #[trigger] wanting.contains(n) implies exists|k: int|
        0 <= k < devices.len() && (#[trigger] devices[k]).kind == Kind::Disk && devices[k].mount is None
            && devices[k].name == n by {
        lemma_unmounted(devices, n);
    }
    lemma_borrowing(devices, disk_names(devices), wanting, i);
    if devices[i].kind == Kind::Disk && devices[i].mount is None {
        lemma_disk_wants(devices, i);
    } else if wanting.contains(devices[i].name) {
        let k = choose|k: int|
            0 <= k < devices.len() && (#[trigger] devices[k]).kind == Kind::Disk && devices[k].mount is None
                && devices[k].name == devices[i].name;
        assert(k == i);
    }
}

/// The names of disks are those of the disks among the devices, and of nothing
/// else.
pub proof fn law_disk_names_are_those_of_disks(devices: Seq<DeviceView>, name: Seq<char>)
    ensures
        disk_names(devices).contains(name) <==> exists|i: int|
            0 <= i < devices.len() && (#[trigger] devices[i]).kind == Kind::Disk && devices[i].name == name,
    decreases devices.len(),
{
    if exists|i: int|
        0 <= i < devices.len() && (#[trigger] devices[i]).kind == Kind::Disk && devices[i].name == name {
        let i = choose|i: int|
            0 <= i < devices.len() && (#[trigger] devices[i]).kind == Kind::Disk && devices[i].name == name;
        lemma_disk_is_listed(devices, i);
    }
    if disk_names(devices).contains(name) && devices.len() > 0 {
        let init = disk_names(devices.drop_last());
        let k = disk_names(devices).index_of(name);
        if k < init.len() {
            assert(init[k] == name);
            law_disk_names_are_those_of_disks(devices.drop_last(), name);
            let i = choose|i: int|
                0 <= i < devices.len() - 1 && (#[trigger] devices.drop_last()[i]).kind == Kind::Disk
                    && devices.drop_last()[i].name == name;
            assert(devices[i].name == name);
        } else {
            assert(devices[devices.len() - 1].name == name);
        }
    }
}

proof fn lemma_own_size(devices: Seq<DeviceView>, i: int)
    requires
        named_apart(devices),
        0 <= i < devices.len(),
        devices[i].kind == Kind::Disk,
    ensures
        disk_size(devices, devices[i].name) == Some(devices[i].size),
    decreases devices.len(),
{
    let last = devices.len() - 1;
    if i < last {
        let init = devices.drop_last();
        assert(devices[last].name != devices[i].name);
        assert(init[i] == devices[i]);
        assert forall|j: int, k: int| 0 <= j < init.len() && 0 <= k < init.len() && j != k implies (
        #[trigger] init[j]).name != (#[trigger] init[k]).name by {
            assert(init[j] == devices[j] && init[k] == devices[k]);
        }
        lemma_own_size(init, i);
    }
}

/// The place of a disk is its own, and that of a partition is with its disk.
proof fn lemma_places(devices: Seq<DeviceView>, i: int)
    requires
        named_apart(devices),
        0 <= i < devices.len(),
    ensures
        devices[i].kind == Kind::Disk ==> place(devices[i], devices) == (Place {
            size: devices[i].size,
            disk: devices[i].name,
            partition: false,
            name: devices[i].name,
        }) && parent_of(devices[i].name, disk_names(devices)) == devices[i].name,
        place(devices[i], devices).name == devices[i].name,
        place(devices[i], devices).partition == (devices[i].kind == Kind::Partition),
        forall|d: int|
            0 <= d < devices.len() && (#[trigger] devices[d]).kind == Kind::Disk && parent_of(
                devices[i].name,
                disk_names(devices),
            ) == devices[d].name ==> place(devices[i], devices).disk == devices[d].name && place(
                devices[i],
                devices,
            ).size == devices[d].size,
{
    let disks = disk_names(devices);
    let name = devices[i].name;
    if devices[i].kind == Kind::Disk {
        lemma_disk_is_listed(devices, i);
        law_parent_is_the_longest_prefix(name, disks);
        let k = disks.index_of(name);
        assert(disks[k].is_prefix_of(name)) by {
            assert(name.subrange(0, name.len() as int) =~= name);
        }
        let own = parent_of(name, disks);
        assert(own.len() == name.len());
        assert(own =~= name) by {
            assert(name.subrange(0, own.len() as int) =~= name);
        }
        lemma_own_size(devices, i);
    }
    assert forall|d: int|
        0 <= d < devices.len() && (#[trigger] devices[d]).kind == Kind::Disk && parent_of(name, disks)
            == devices[d].name implies place(devices[i], devices).disk == devices[d].name && place(
        devices[i],
        devices,
    ).size == devices[d].size by {
        lemma_own_size(devices, d);
    }
}

/// A sorted list holds the devices that were found, all of them and no others.
pub proof fn law_sorting_loses_nothing(found: Seq<DeviceView>, sorted: Seq<DeviceView>, d: DeviceView)
    requires
        sorted_by_place(found, sorted),
    ensures
        sorted.len() == found.len(),
        sorted.contains(d) <==> found.contains(d),
        named_apart(found) ==> named_apart(sorted),
{
    let n = found.len() as int;
    let p = choose|p: Seq<int>|
        #![trigger rearranges(p, n)]
        rearranges(p, n) && in_order(p, places(found)) && sorted == Seq::new(p.len(), |i: int| found[p[i]]);
    if sorted.contains(d) {
        let i = sorted.index_of(d);
        assert(found[p[i]] == d);
    }
    if found.contains(d) {
        let i = found.index_of(d);
        lemma_rearrangement_holds_all(p, n, i);
        let k = p.index_of(i);
        assert(sorted[k] == d);
    }
    if named_apart(found) {
        assert forall|j: int, k: int| 0 <= j < sorted.len() && 0 <= k < sorted.len() && j != k implies (
        #[trigger] sorted[j]).name != (#[trigger] sorted[k]).name by {
            assert(sorted[j] == found[p[j]] && sorted[k] == found[p[k]]);
            assert(p[j] != p[k]);
        }
    }
}

/// A sorted list reads as a tree: larger disks come first, and disks of one size
/// by their names; every partition comes behind its disk, with nothing between
/// the two but partitions of that disk, and these stand in the order of their
/// names.
#[verifier::rlimit(60)]
pub proof fn law_sorted_list_reads_as_a_tree(found: Seq<DeviceView>, sorted: Seq<DeviceView>, i: int, j: int)
    requires
        named_apart(found),
        sorted_by_place(found, sorted),
        0 <= i < j < sorted.len(),
    ensures
        ({
            let disks = disk_names(found);
            let a = sorted[i];
            let b = sorted[j];
            &&& a.kind == Kind::Disk && b.kind == Kind::Disk ==> {
                ||| a.size > b.size
                ||| a.size == b.size && before(a.name, b.name)
            }
            &&& b.kind == Kind::Disk && a.kind == Kind::Partition ==> parent_of(a.name, disks) != b.name
            &&& a.kind == Kind::Partition && b.kind == Kind::Partition && parent_of(a.name, disks)
                == parent_of(b.name, disks) && disks.contains(parent_of(a.name, disks)) ==> before(
                a.name,
                b.name,
            )
            &&& a.kind == Kind::Disk && b.kind == Kind::Partition && parent_of(b.name, disks) == a.name
                ==> forall|k: int|
                i < k < j ==> parent_of((#[trigger] sorted[k]).name, disks) == a.name && sorted[k].kind
                    == Kind::Partition
        }),
{
    let n = found.len() as int;
    let disks = disk_names(found);
    let p = choose|p: Seq<int>|
        #![trigger rearranges(p, n)]
        rearranges(p, n) && in_order(p, places(found)) && sorted == Seq::new(p.len(), |i: int| found[p[i]]);
    let x = p[i];
    let y = p[j];
    assert(sorted[i] == found[x] && sorted[j] == found[y]);
    assert(x != y);
    assert(found[x].name != found[y].name);
    lemma_places(found, x);
    lemma_places(found, y);
    assert(!ahead(places(found)[y], places(found)[x]));
    law_before_is_an_order(found[x].name, found[y].name, found[x].name);
    if found[x].kind == Kind::Partition && found[y].kind == Kind::Partition && parent_of(found[x].name, disks)
        == parent_of(found[y].name, disks) && disks.contains(parent_of(found[x].name, disks)) {
        law_disk_names_are_those_of_disks(found, parent_of(found[x].name, disks));
        let d = choose|d: int|
            0 <= d < found.len() && (#[trigger] found[d]).kind == Kind::Disk && found[d].name == parent_of(
                found[x].name,
                disks,
            );
        assert(places(found)[x].disk == found[d].name);
        assert(places(found)[y].disk == found[d].name);
    }
    if found[y].kind == Kind::Disk && found[x].kind == Kind::Partition && parent_of(found[x].name, disks)
        == found[y].name {
        law_partitions_follow_their_disk(found, y, x, places(found)[x]);
    }
    if found[x].kind == Kind::Disk && found[y].kind == Kind::Partition && parent_of(found[y].name, disks)
        == found[x].name {
        assert forall|k: int| i < k < j implies parent_of((#[trigger] sorted[k]).name, disks) == found[x].name
            && sorted[k].kind == Kind::Partition by {
            let z = p[k];
            assert(sorted[k] == found[z]);
            assert(!ahead(places(found)[z], places(found)[x]));
            assert(!ahead(places(found)[y], places(found)[z]));
            law_partitions_follow_their_disk(found, x, y, places(found)[z]);
            lemma_places(found, z);
            assert(z != x);
            assert(found[z].name != found[x].name);
        }
    }
}

proof fn lemma_lending_keeps_the_rest(devices: Seq<DeviceView>, disks: Seq<Seq<char>>, wanting: Seq<Seq<char>>)
    ensures
        all_lent(devices, disks, wanting).len() == devices.len(),
        forall|i: int|
            0 <= i < devices.len() ==> {
                let r = #[trigger] all_lent(devices, disks, wanting)[i];
                r == (DeviceView { mount: r.mount, mount_inherited: r.mount_inherited, ..devices[i] })
            },
    decreases wanting.len(),
{
    if wanting.len() > 0 {
        let init = wanting.drop_last();
        lemma_lending_keeps_the_rest(devices, disks, init);
        let cur = all_lent(devices, disks, init);
        lemma_lent_shape(cur, disks, wanting.last());
        assert forall|i: int| 0 <= i < devices.len() implies ({
            let r = #[trigger] all_lent(devices, disks, wanting)[i];
            r == (DeviceView { mount: r.mount, mount_inherited: r.mount_inherited, ..devices[i] })
        }) by {
            let r = lent(cur, disks, wanting.last())[i];
            let c = cur[i];
            assert(c == all_lent(devices, disks, init)[i]);
        }
    }
}

/// Whether two devices are the same but for their mounts.
pub open spec fn same_but_mount(a: DeviceView, b: DeviceView) -> bool {
    &&& a.name == b.name
    &&& a.path == b.path
    &&& a.kind == b.kind
    &&& a.size == b.size
    &&& a.model == b.model
    &&& a.rotational == b.rotational
    &&& a.removable == b.removable
}

/// The list of devices holds every device with a medium that was found and
/// nothing else. All but the mounts of disks is listed as it was found.
pub proof fn law_every_device_with_a_medium_is_listed(found: Vec<Device>, r: Vec<Device>, d: DeviceView)
    requires
        call_ensures(enumerate, (found,), r),
    ensures
        found.deep_view().contains(d) && d.size > 0 ==> exists|i: int|
            0 <= i < r.deep_view().len() && same_but_mount(#[trigger] r.deep_view()[i], d),
        r.deep_view().contains(d) ==> d.size > 0 && exists|i: int|
            0 <= i < found.deep_view().len() && same_but_mount(#[trigger] found.deep_view()[i], d),
{
    let all = found.deep_view();
    let pred = |x: DeviceView| x.size > 0;
    let kept = sizeable(all);
    let sorted = choose|sorted: Seq<DeviceView>| #[trigger]
        sorted_by_place(kept, sorted) && r.deep_view() == with_inherited(sorted);
    lemma_lending_keeps_the_rest(sorted, disk_names(sorted), unmounted(sorted));
    if all.contains(d) && d.size > 0 {
        let i = all.index_of(d);
        all.lemma_filter_contains(pred, i);
        assert(kept.contains(d));
        law_sorting_loses_nothing(kept, sorted, d);
        let k = sorted.index_of(d);
        assert(same_but_mount(with_inherited(sorted)[k], d));
    }
    if r.deep_view().contains(d) {
        let k = r.deep_view().index_of(d);
        let e = sorted[k];
        assert(with_inherited(sorted)[k] == d);
        assert(sorted.contains(e));
        law_sorting_loses_nothing(kept, sorted, e);
        let i = kept.index_of(e);
        all.lemma_filter_pred(pred, i);
        all.lemma_filter_contains_rev(pred, e);
        let j = all.index_of(e);
        assert(same_but_mount(all[j], d));
    }
}

/// A device can be tested unless it holds nothing or cannot be read, and what
/// stands in the way names the device that cannot be read.
pub proof fn law_only_empty_or_locked_devices_are_refused(d: DeviceView, readable: bool)
    ensures
        obstacle(d, readable) is None <==> d.size > 0 && readable,
        d.size > 0 && !readable ==> exists|a: Seq<char>, b: Seq<char>|
            obstacle(d, readable) == Some(#[trigger] (a + d.path + b)),
        d.size == 0 ==> obstacle(d, readable) == obstacle(d, !readable),
{
    if d.size > 0 && !readable {
        let a = "no read permission on "@;
        let b = " — try running with sudo"@;
        assert(obstacle(d, readable) == Some(a + d.path + b));
    }
}

/// A scratch file goes to the filesystem of the device, and only where that can
/// be written to.
pub proof fn law_scratch_goes_to_a_writable_mount(d: DeviceView)
    ensures
        scratch_dir(d) is Some <==> d.mount is Some && d.mount->0.writable,
        scratch_dir(d) is Some ==> scratch_dir(d)->0 == d.mount->0.path,
{
}

/// Where mounts are borrowed, each disk that has none gets the one with the most
/// free space among those of its partitions that can be written to.
pub proof fn law_borrowing_takes_the_roomiest_mount(devices: &mut Vec<Device>, r: (), i: int, k: int)
    requires
        named_apart(old(devices).deep_view()),
        0 <= i < old(devices).deep_view().len(),
        0 <= k < old(devices).deep_view().len(),
        call_ensures(inherit_mounts, (devices,), r),
    ensures
        ({
            let before = old(devices).deep_view();
            let after = final(devices).deep_view();
            let d = before[i];
            let p = before[k];
            &&& after.len() == before.len()
            &&& d.kind == Kind::Disk && d.mount is None && lends(p, disk_names(before), d.name) ==> {
                &&& after[i].mount is Some && after[i].mount_inherited
                &&& after[i].mount->0.writable
                &&& p.mount->0.free <= after[i].mount->0.free
            }
            &&& d.kind == Kind::Partition || d.mount is Some ==> after[i] == d
        }),
{
    let before = old(devices).deep_view();
    law_disk_borrows_the_roomiest_mount(before, i);
    if before[i].kind == Kind::Disk && before[i].mount is None && lends(before[k], disk_names(before), before[i].name) {
        let got = with_inherited(before)[i];
        assert(has_borrowed(before, disk_names(before), i, got));
        assert(lends(before[k], disk_names(before), before[i].name));
    }
}

proof fn lemma_kept_apart(devices: Seq<DeviceView>)
    requires
        named_apart(devices),
    ensures
        named_apart(sizeable(devices)),
        forall|d: DeviceView| #[trigger] sizeable(devices).contains(d) ==> devices.contains(d),
    decreases devices.len(),
{
    let pred = |d: DeviceView| d.size > 0;
    if devices.len() == 0 {
        assert(sizeable(devices) =~= Seq::empty()) by {
            reveal(Seq::filter);
        }
    } else {
        let init = devices.drop_last();
        let last = devices.last();
        assert forall|j: int, k: int| 0 <= j < init.len() && 0 <= k < init.len() && j != k implies (
        #[trigger] init[j]).name != (#[trigger] init[k]).name by {
            assert(init[j] == devices[j] && init[k] == devices[k]);
        }
        lemma_kept_apart(init);
        init.lemma_filter_push(last, pred);
        assert(init.push(last) =~= devices);
        let old = sizeable(init);
        let now = sizeable(devices);
        assert forall|j: int, k: int| 0 <= j < now.len() && 0 <= k < now.len() && j != k implies (
        #[trigger] now[j]).name != (#[trigger] now[k]).name by {
            let a = if j < k {
                j
            } else {
                k
            };
            let b = if j < k {
                k
            } else {
                j
            };
            if b == old.len() {
                assert(old.contains(old[a]));
                assert(init.contains(old[a]));
                let i = init.index_of(old[a]);
                assert(devices[i].name != devices[devices.len() - 1].name);
            } else {
                assert(old[a].name != old[b].name);
            }
        }
        assert forall|d: DeviceView| #[trigger] now.contains(d) implies devices.contains(d) by {
            let i = now.index_of(d);
            if i < old.len() {
                assert(old.contains(d));
                let k = init.index_of(d);
                assert(devices[k] == d);
            } else {
                assert(devices[devices.len() - 1] == d);
            }
        }
    }
}

/// The list of devices reads as a tree: larger disks come first, and disks of one
/// size by their names; a partition comes behind its disk, with nothing between
/// the two but partitions of that disk, and these stand in the order of their
/// names.
#[verifier::rlimit(60)]
pub proof fn law_list_reads_as_a_tree(found: Vec<Device>, r: Vec<Device>, i: int, j: int)
    requires
        named_apart(found.deep_view()),
        call_ensures(enumerate, (found,), r),
        0 <= i < j < r.deep_view().len(),
    ensures
        ({
            let disks = disk_names(sizeable(found.deep_view()));
            let all = r.deep_view();
            let a = all[i];
            let b = all[j];
            &&& a.kind == Kind::Disk && b.kind == Kind::Disk ==> {
                ||| a.size > b.size
                ||| a.size == b.size && before(a.name, b.name)
            }
            &&& b.kind == Kind::Disk && a.kind == Kind::Partition ==> parent_of(a.name, disks) != b.name
            &&& a.kind == Kind::Partition && b.kind == Kind::Partition && parent_of(a.name, disks)
                == parent_of(b.name, disks) && disks.contains(parent_of(a.name, disks)) ==> before(
                a.name,
                b.name,
            )
            &&& a.kind == Kind::Disk && b.kind == Kind::Partition && parent_of(b.name, disks) == a.name
                ==> forall|k: int|
                i < k < j ==> parent_of((#[trigger] all[k]).name, disks) == a.name && all[k].kind
                    == Kind::Partition
        }),
{
    let kept = sizeable(found.deep_view());
    lemma_kept_apart(found.deep_view());
    let sorted = choose|sorted: Seq<DeviceView>| #[trigger]
        sorted_by_place(kept, sorted) && r.deep_view() == with_inherited(sorted);
    lemma_lending_keeps_the_rest(sorted, disk_names(sorted), unmounted(sorted));
    law_sorted_list_reads_as_a_tree(kept, sorted, i, j);
    let all = r.deep_view();
    assert(all[i] == all_lent(sorted, disk_names(sorted), unmounted(sorted))[i]);
    assert(all[j] == all_lent(sorted, disk_names(sorted), unmounted(sorted))[j]);
    assert forall|k: int| 0 <= k < all.len() implies (#[trigger] all[k]).name == sorted[k].name && all[k].kind
        == sorted[k].kind by {
        assert(all[k] == all_lent(sorted, disk_names(sorted), unmounted(sorted))[k]);
    }
}

proof fn lemma_same_disks(a: Seq<DeviceView>, b: Seq<DeviceView>)
    requires
        a.len() == b.len(),
        forall|i: int| 0 <= i < a.len() ==> (#[trigger] a[i]).name == b[i].name && a[i].kind == b[i].kind,
    ensures
        disk_names(a) == disk_names(b),
    decreases a.len(),
{
    if a.len() > 0 {
        let x = a.drop_last();
        let y = b.drop_last();
        assert forall|i: int| 0 <= i < x.len() implies (#[trigger] x[i]).name == y[i].name && x[i].kind == y[i].kind by {
            assert(a[i].name == b[i].name);
        }
        lemma_same_disks(x, y);
        assert(a[a.len() - 1].name == b[b.len() - 1].name);
    } else {
        assert(a =~= b);
    }
}

/// In the list of devices no disk has borrowed less room than one of its own
/// partitions had to lend, and none has gone without where one could.
pub proof fn law_listed_disks_have_the_roomiest_mount(found: Vec<Device>, r: Vec<Device>, i: int, k: int)
    requires
        named_apart(found.deep_view()),
        forall|n: int| 0 <= n < found.deep_view().len() ==> !(#[trigger] found.deep_view()[n]).mount_inherited,
        call_ensures(enumerate, (found,), r),
        0 <= i < r.deep_view().len(),
        0 <= k < r.deep_view().len(),
    ensures
        ({
            let all = r.deep_view();
            let d = all[i];
            let p = all[k];
            d.kind == Kind::Disk && lends(p, disk_names(all), d.name) ==> {
                &&& d.mount is Some
                &&& d.mount_inherited ==> d.mount->0.writable && p.mount->0.free <= d.mount->0.free
            }
        }),
{
    let kept = sizeable(found.deep_view());
    lemma_kept_apart(found.deep_view());
    let sorted = choose|sorted: Seq<DeviceView>| #[trigger]
        sorted_by_place(kept, sorted) && r.deep_view() == with_inherited(sorted);
    law_sorting_loses_nothing(kept, sorted, sorted[i]);
    lemma_lending_keeps_the_rest(sorted, disk_names(sorted), unmounted(sorted));
    let all = r.deep_view();
    assert forall|n: int| 0 <= n < all.len() implies (#[trigger] all[n]).name == sorted[n].name && all[n].kind
        == sorted[n].kind by {
        assert(all[n] == all_lent(sorted, disk_names(sorted), unmounted(sorted))[n]);
    }
    lemma_same_disks(all, sorted);
    law_disk_borrows_the_roomiest_mount(sorted, i);
    law_disk_borrows_the_roomiest_mount(sorted, k);
    assert(sorted.contains(sorted[i]));
    let n = kept.index_of(sorted[i]);
    assert(kept.contains(kept[n]));
    let m = found.deep_view().index_of(sorted[i]);
    assert(!found.deep_view()[m].mount_inherited);
    if all[i].kind == Kind::Disk && lends(all[k], disk_names(all), all[i].name) {
        assert(all[k] == sorted[k]);
        assert(lends(sorted[k], disk_names(sorted), sorted[i].name));
    }
}

} // verus!
