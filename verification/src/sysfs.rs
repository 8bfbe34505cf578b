//! Devices as Linux describes them, in small files under `/sys/block`.

use vstd::prelude::*;

use crate::device::{Device, DeviceView, Kind};
use crate::mounts::{lookup_mount, looked_up, Entry, EntryView};
use crate::number::{decimal, is_digit, law_decimals_read_back, parse_unsigned, unsigned_within};
use crate::path::{join, path_join};
use crate::text::{same, space, starts_with, trim, trim_end, trimmed};

verus! {

/// The files that describe a device, as far as they can be read.
#[derive(Debug)]
pub struct Files {
    /// `size`, in sectors of 512 bytes whatever the physical sector size.
    pub size: Option<String>,
    /// `device/model`
    pub model: Option<String>,
    /// `../device/model`, of the disk that a partition is on.
    pub disk_model: Option<String>,
    /// `device/name`
    pub name: Option<String>,
    /// `queue/rotational`
    pub rotational: Option<String>,
    /// `../queue/rotational`, of the disk that a partition is on.
    pub disk_rotational: Option<String>,
    /// `removable`
    pub removable: Option<String>,
}

/// The contents of the files that describe a device.
pub ghost struct FilesView {
    pub size: Option<Seq<char>>,
    pub model: Option<Seq<char>>,
    pub disk_model: Option<Seq<char>>,
    pub name: Option<Seq<char>>,
    pub rotational: Option<Seq<char>>,
    pub disk_rotational: Option<Seq<char>>,
    pub removable: Option<Seq<char>>,
}

impl View for Files {
    type V = FilesView;

    open spec fn view(&self) -> FilesView {
        FilesView {
            size: self.size.deep_view(),
            model: self.model.deep_view(),
            disk_model: self.disk_model.deep_view(),
            name: self.name.deep_view(),
            rotational: self.rotational.deep_view(),
            disk_rotational: self.disk_rotational.deep_view(),
            removable: self.removable.deep_view(),
        }
    }
}

/// What a file says: its text without the space around it, if there is any.
pub open spec fn said(file: Option<Seq<char>>) -> Option<Seq<char>> {
    match file {
        Some(s) => if trimmed(s).len() > 0 {
            Some(trimmed(s))
        } else {
            None
        },
        None => None,
    }
}

/// What a file says: its text without the space around it, if there is any.
pub fn read_trim(file: &Option<String>) -> (r: Option<String>)
    ensures
        r.deep_view() == said(file.deep_view()),
{
    match file {
        Some(s) => {
            let t = trim(s.as_str());
            if t.as_str().is_empty() {
                None
            } else {
                Some(t)
            }
        },
        None => None,
    }
}

/// The first of two, or the second where there is no first.
pub open spec fn either(a: Option<Seq<char>>, b: Option<Seq<char>>) -> Option<Seq<char>> {
    if a is Some {
        a
    } else {
        b
    }
}

fn first_of(a: Option<String>, b: Option<String>) -> (r: Option<String>)
    ensures
        r.deep_view() == either(a.deep_view(), b.deep_view()),
{
    match a {
        Some(s) => Some(s),
        None => b,
    }
}

/// Bytes in a number of sectors, the largest number that fits at most.
pub open spec fn sector_bytes(sectors: nat) -> u64 {
    if sectors * 512 <= u64::MAX {
        (sectors * 512) as u64
    } else {
        u64::MAX
    }
}

/// The device that files describe. One whose size cannot be read is none.
pub open spec fn described(files: FilesView, name: Seq<char>, kind: Kind, table: Seq<EntryView>) -> Option<
    DeviceView,
> {
    let path = join("/dev"@, name);
    let sectors = match said(files.size) {
        Some(s) => unsigned_within(s, 10, u64::MAX as nat),
        None => None,
    };
    let model = either(said(files.model), either(said(files.disk_model), said(files.name)));
    let rotational = either(said(files.rotational), said(files.disk_rotational));
    match sectors {
        None => None,
        Some(n) => Some(
            DeviceView {
                name,
                path,
                kind,
                size: sector_bytes(n),
                model: match model {
                    Some(m) => m,
                    None => "unknown"@,
                },
                rotational: match rotational {
                    Some(v) => Some(v == "1"@),
                    None => None,
                },
                removable: said(files.removable) == Some("1"@),
                mount: looked_up(path, table),
                mount_inherited: false,
            },
        ),
    }
}

/// The device that files describe.
pub fn linux_device(files: &Files, name: &str, kind: Kind, table: &Vec<Entry>) -> (r: Option<Device>)
    ensures
        r.deep_view() == described(files@, name@, kind, table.deep_view()),
{
    let sectors: u64 = match read_trim(&files.size) {
        None => {
            return None;
        },
        Some(s) => match parse_unsigned(s.as_str(), 10, u64::MAX) {
            None => {
                return None;
            },
            Some(n) => n,
        },
    };
    let size: u64 = if sectors <= u64::MAX / 512 {
        sectors * 512
    } else {
        u64::MAX
    };
    let path = path_join("/dev", name);
    let model = match first_of(
        read_trim(&files.model),
        first_of(read_trim(&files.disk_model), read_trim(&files.name)),
    ) {
        Some(m) => m,
        None => "unknown".to_string(),
    };
    let rotational = match first_of(read_trim(&files.rotational), read_trim(&files.disk_rotational)) {
        Some(v) => Some(same(v.as_str(), "1")),
        None => None,
    };
    let removable = match read_trim(&files.removable) {
        Some(v) => same(v.as_str(), "1"),
        None => false,
    };
    let mount = lookup_mount(path.as_str(), table);
    Some(
        Device {
            name: name.to_string(),
            path,
            kind,
            size,
            model,
            rotational,
            removable,
            mount,
            mount_inherited: false,
        },
    )
}

/// Whether a name is that of a device without a medium of its own.
pub open spec fn virtual_name(name: Seq<char>) -> bool {
    ||| "loop"@.is_prefix_of(name)
    ||| "ram"@.is_prefix_of(name)
    ||| "zram"@.is_prefix_of(name)
    ||| "fd"@.is_prefix_of(name)
    ||| "dm-"@.is_prefix_of(name)
}

/// Whether a name is that of a device without a medium of its own.
pub fn is_virtual(name: &str) -> (r: bool)
    ensures
        r == virtual_name(name@),
{
    starts_with(name, "loop") || starts_with(name, "ram") || starts_with(name, "zram") || starts_with(
        name,
        "fd",
    ) || starts_with(name, "dm-")
}

/// A directory below that of a disk.
#[derive(Debug)]
pub struct Child {
    pub name: String,
    /// Partitions are subdirectories carrying a `partition` file.
    pub is_partition: bool,
    pub files: Files,
}

/// The values of a directory below that of a disk.
pub ghost struct ChildView {
    pub name: Seq<char>,
    pub is_partition: bool,
    pub files: FilesView,
}

impl View for Child {
    type V = ChildView;

    open spec fn view(&self) -> ChildView {
        ChildView { name: self.name@, is_partition: self.is_partition, files: self.files@ }
    }
}

impl DeepView for Child {
    type V = ChildView;

    open spec fn deep_view(&self) -> ChildView {
        self@
    }
}

/// A directory under `/sys/block`.
#[derive(Debug)]
pub struct Block {
    pub name: String,
    pub files: Files,
    pub children: Vec<Child>,
}

/// The values of a directory under `/sys/block`.
pub ghost struct BlockView {
    pub name: Seq<char>,
    pub files: FilesView,
    pub children: Seq<ChildView>,
}

impl View for Block {
    type V = BlockView;

    open spec fn view(&self) -> BlockView {
        BlockView { name: self.name@, files: self.files@, children: self.children.deep_view() }
    }
}

impl DeepView for Block {
    type V = BlockView;

    open spec fn deep_view(&self) -> BlockView {
        self@
    }
}

/// The partitions among the directories below that of a disk, which lends them
/// its model.
pub open spec fn partitions(disk: DeviceView, children: Seq<ChildView>, table: Seq<EntryView>) -> Seq<
    DeviceView,
>
    decreases children.len(),
{
    if children.len() == 0 {
        Seq::empty()
    } else {
        let init = partitions(disk, children.drop_last(), table);
        let c = children.last();
        match described(c.files, c.name, Kind::Partition, table) {
            Some(d) => if c.is_partition {
                init.push(DeviceView { removable: disk.removable, model: disk.model, ..d })
            } else {
                init
            },
            None => init,
        }
    }
}

/// A disk and its partitions.
pub open spec fn disk_and_partitions(block: BlockView, table: Seq<EntryView>) -> Seq<DeviceView> {
    if virtual_name(block.name) {
        Seq::empty()
    } else {
        match described(block.files, block.name, Kind::Disk, table) {
            Some(d) => seq![d] + partitions(d, block.children, table),
            None => Seq::empty(),
        }
    }
}

/// The disks and partitions of all directories.
pub open spec fn all_devices(blocks: Seq<BlockView>, table: Seq<EntryView>) -> Seq<DeviceView>
    decreases blocks.len(),
{
    if blocks.len() == 0 {
        Seq::empty()
    } else {
        all_devices(blocks.drop_last(), table) + disk_and_partitions(blocks.last(), table)
    }
}

fn push_partitions(out: &mut Vec<Device>, removable: bool, model: &String, children: &Vec<Child>, table: &Vec<Entry>)
    ensures
        forall|disk: DeviceView|
            disk.removable == removable && disk.model == model@ ==> final(out).deep_view() == old(
                out,
            ).deep_view() + #[trigger] partitions(disk, children.deep_view(), table.deep_view()),
{
    let ghost start = out.deep_view();
    let ghost all = children.deep_view();
    let mut i: usize = 0;
    assert forall|disk: DeviceView| disk.removable == removable && disk.model == model@ implies start
        == start + #[trigger] partitions(disk, all.take(0), table.deep_view()) by {
        assert(start + partitions(disk, all.take(0), table.deep_view()) =~= start);
    }
    while i < children.len()
        invariant
            i <= children@.len(),
            all == children.deep_view(),
            all.len() == children@.len(),
            forall|disk: DeviceView|
                disk.removable == removable && disk.model == model@ ==> out.deep_view() == start
                    + #[trigger] partitions(disk, all.take(i as int), table.deep_view()),
        decreases children@.len() - i,
    {
        let ghost done = out.deep_view();
        let c = &children[i];
        assert(all.take(i + 1).drop_last() =~= all.take(i as int));
        assert(all.take(i + 1).last() == c@);
        if c.is_partition {
            if let Some(found) = linux_device(&c.files, c.name.as_str(), Kind::Partition, table) {
                let mut part = found;
                part.removable = removable;
                part.model = model.clone();
                out.push(part);
                assert(out.deep_view() =~= done.push(part@));
            }
        }
        assert forall|disk: DeviceView| disk.removable == removable && disk.model == model@ implies out.deep_view()
            == start + #[trigger] partitions(disk, all.take(i + 1), table.deep_view()) by {
            assert(done == start + partitions(disk, all.take(i as int), table.deep_view()));
            assert(out.deep_view() =~= start + partitions(disk, all.take(i + 1), table.deep_view()));
        }
        i += 1;
    }
    assert(all.take(i as int) =~= all);
}

/// The devices that Linux knows, without those that have no medium.
pub fn linux_devices(blocks: &Vec<Block>, table: &Vec<Entry>) -> (r: Vec<Device>)
    ensures
        r.deep_view() == all_devices(blocks.deep_view(), table.deep_view()),
{
    let ghost all = blocks.deep_view();
    let mut out: Vec<Device> = Vec::new();
    let mut i: usize = 0;
    assert(out.deep_view() =~= all_devices(all.take(0), table.deep_view()));
    while i < blocks.len()
        invariant
            i <= blocks@.len(),
            all == blocks.deep_view(),
            all.len() == blocks@.len(),
            out.deep_view() == all_devices(all.take(i as int), table.deep_view()),
        decreases blocks@.len() - i,
    {
        let ghost done = out.deep_view();
        let b = &blocks[i];
        assert(all.take(i + 1).drop_last() =~= all.take(i as int));
        assert(all.take(i + 1).last() == b@);
        if is_virtual(b.name.as_str()) {
            assert(done + disk_and_partitions(b@, table.deep_view()) =~= done);
        } else {
            match linux_device(&b.files, b.name.as_str(), Kind::Disk, table) {
                Some(disk) => {
                    let ghost view = disk@;
                    let removable = disk.removable;
                    let model = disk.model.clone();
                    out.push(disk);
                    assert(out.deep_view() =~= done.push(view));
                    push_partitions(&mut out, removable, &model, &b.children, table);
                    assert(out.deep_view() =~= done + (seq![view] + partitions(
                        view,
                        b.children.deep_view(),
                        table.deep_view(),
                    )));
                },
                None => {
                    assert(done + disk_and_partitions(b@, table.deep_view()) =~= done);
                },
            }
        }
        i += 1;
    }
    assert(all.take(i as int) =~= all);
    out
}

proof fn lemma_line_is_trimmed(s: Seq<char>)
    requires
        s.len() > 0,
        !space(s[0]),
        !space(s.last()),
    ensures
        trimmed(s.push('\n')) == s,
        said(Some(s.push('\n'))) == Some(s),
{
    reveal_with_fuel(trim_end, 2);
    let t = s.push('\n');
    assert(space('\n'));
    assert(t[0] == s[0]);
    assert(t.drop_last() =~= s);
}

/// The size of a device is its number of sectors times 512, whatever sectors it
/// has. A device whose size is no number is none.
pub proof fn law_sizes_count_sectors_of_512_bytes(
    files: FilesView,
    n: nat,
    name: Seq<char>,
    kind: Kind,
    table: Seq<EntryView>,
)
    requires
        n * 512 <= u64::MAX,
    ensures
        files.size == Some(decimal(n).push('\n')) ==> described(files, name, kind, table) is Some && described(
            files,
            name,
            kind,
            table,
        )->0.size == n * 512,
        files.size is None ==> described(files, name, kind, table) is None,
        described(files, name, kind, table) matches Some(d) ==> d.name == name && d.kind == kind && d.path
            == join("/dev"@, name) && d.mount == looked_up(join("/dev"@, name), table) && !d.mount_inherited,
{
    law_decimals_read_back(n);
    let s = decimal(n);
    assert(is_digit(s[0], 10) && is_digit(s[s.len() - 1], 10));
    lemma_line_is_trimmed(s);
}

/// A device spins just where its file says so; a partition has the word of its
/// disk for it where it has none of its own. So it is with the model, and only a
/// device that says so is removable.
#[verifier::rlimit(60)]
pub proof fn law_files_say_what_a_device_is(
    files: FilesView,
    text: Seq<char>,
    name: Seq<char>,
    kind: Kind,
    table: Seq<EntryView>,
)
    requires
        described(files, name, kind, table) is Some,
        text.len() > 0 && !space(text[0]) && !space(text.last()),
    ensures
        ({
            let d = described(files, name, kind, table)->0;
            let line = Some(text.push('\n'));
            &&& files.rotational == Some("1"@.push('\n')) ==> d.rotational == Some(true)
            &&& files.rotational == Some("0"@.push('\n')) ==> d.rotational == Some(false)
            &&& files.rotational is None && files.disk_rotational == Some("1"@.push('\n')) ==> d.rotational
                == Some(true)
            &&& files.rotational is None && files.disk_rotational == Some("0"@.push('\n')) ==> d.rotational
                == Some(false)
            &&& files.rotational is None && files.disk_rotational is None ==> d.rotational is None
            &&& files.model == line ==> d.model == text
            &&& files.model is None && files.disk_model == line ==> d.model == text
            &&& files.model is None && files.disk_model is None && files.name == line ==> d.model == text
            &&& files.model is None && files.disk_model is None && files.name is None ==> d.model
                == "unknown"@
            &&& files.removable == Some("1"@.push('\n')) ==> d.removable
            &&& files.removable == Some("0"@.push('\n')) || files.removable is None ==> !d.removable
        }),
{
    reveal_strlit("1");
    reveal_strlit("0");
    lemma_line_is_trimmed(text);
    lemma_line_is_trimmed("1"@);
    lemma_line_is_trimmed("0"@);
    assert("1"@[0] != "0"@[0]);
}

/// Loop, memory and floppy devices and device-mapper nodes are no disks, and
/// neither are their partitions.
#[verifier::rlimit(60)]
pub proof fn law_devices_without_a_medium_are_left_out(block: BlockView, table: Seq<EntryView>, rest: Seq<char>)
    ensures
        block.name == "loop"@ + rest || block.name == "ram"@ + rest || block.name == "zram"@ + rest
            || block.name == "fd"@ + rest || block.name == "dm-"@ + rest ==> disk_and_partitions(
            block,
            table,
        ).len() == 0,
        block.name == "sd"@ + rest || block.name == "nvme"@ + rest || block.name == "mmcblk"@ + rest ==> {
            &&& !virtual_name(block.name)
            &&& described(block.files, block.name, Kind::Disk, table) is Some ==> disk_and_partitions(
                block,
                table,
            ).len() > 0 && disk_and_partitions(block, table)[0] == described(
                block.files,
                block.name,
                Kind::Disk,
                table,
            )->0
        },
{
    reveal_strlit("loop");
    reveal_strlit("ram");
    reveal_strlit("zram");
    reveal_strlit("fd");
    reveal_strlit("dm-");
    reveal_strlit("sd");
    reveal_strlit("nvme");
    reveal_strlit("mmcblk");
    let name = block.name;
    assert(("loop"@ + rest).take(4) =~= "loop"@);
    assert(("ram"@ + rest).take(3) =~= "ram"@);
    assert(("zram"@ + rest).take(4) =~= "zram"@);
    assert(("fd"@ + rest).take(2) =~= "fd"@);
    assert(("dm-"@ + rest).take(3) =~= "dm-"@);
    lemma_prefix_begins("loop"@, name);
    lemma_prefix_begins("ram"@, name);
    lemma_prefix_begins("zram"@, name);
    lemma_prefix_begins("fd"@, name);
    lemma_prefix_begins("dm-"@, name);
    assert(name == "sd"@ + rest ==> name[0] == 's');
    assert(name == "nvme"@ + rest ==> name[0] == 'n');
    assert(name == "mmcblk"@ + rest ==> name[0] == 'm');
}

proof fn lemma_prefix_begins(p: Seq<char>, s: Seq<char>)
    requires
        p.len() > 0,
    ensures
        p.is_prefix_of(s) ==> s.len() > 0 && s[0] == p[0],
{
    if p.is_prefix_of(s) {
        assert(s.take(p.len() as int)[0] == p[0]);
    }
}

/// The partitions of a disk are the directories below it that are marked as such
/// and have a size, in their order, and they have the model of their disk.
#[verifier::rlimit(60)]
pub proof fn law_partitions_have_the_model_of_their_disk(
    disk: DeviceView,
    children: Seq<ChildView>,
    table: Seq<EntryView>,
)
    ensures
        forall|k: int|
            0 <= k < partitions(disk, children, table).len() ==> {
                let p = #[trigger] partitions(disk, children, table)[k];
                &&& p.kind == Kind::Partition && p.model == disk.model && p.removable == disk.removable
                &&& exists|i: int|
                    0 <= i < children.len() && (#[trigger] children[i]).is_partition && children[i].name
                        == p.name
            },
        forall|i: int|
            0 <= i < children.len() && (#[trigger] children[i]).is_partition && described(
                children[i].files,
                children[i].name,
                Kind::Partition,
                table,
            ) is Some ==> exists|k: int|
                0 <= k < partitions(disk, children, table).len() && (#[trigger] partitions(
                    disk,
                    children,
                    table,
                )[k]).name == children[i].name,
    decreases children.len(),
{
    if children.len() > 0 {
        let init = children.drop_last();
        law_partitions_have_the_model_of_their_disk(disk, init, table);
        let old = partitions(disk, init, table);
        let now = partitions(disk, children, table);
        assert(children[children.len() - 1] == children.last());
        assert forall|k: int| 0 <= k < now.len() implies ({
            let p = #[trigger] now[k];
            &&& p.kind == Kind::Partition && p.model == disk.model && p.removable == disk.removable
            &&& exists|i: int|
                0 <= i < children.len() && (#[trigger] children[i]).is_partition && children[i].name == p.name
        }) by {
            if k < old.len() {
                assert(now[k] == old[k]);
                let i = choose|i: int|
                    0 <= i < init.len() && (#[trigger] init[i]).is_partition && init[i].name == old[k].name;
                assert(children[i].name == now[k].name);
            } else {
                assert(children[children.len() - 1].name == now[k].name);
            }
        }
        assert forall|i: int|
            0 <= i < children.len() && (#[trigger] children[i]).is_partition && described(
                children[i].files,
                children[i].name,
                Kind::Partition,
                table,
            ) is Some implies exists|k: int|
            0 <= k < now.len() && (#[trigger] now[k]).name == children[i].name by {
            if i < init.len() {
                assert(init[i] == children[i]);
                let k = choose|k: int| 0 <= k < old.len() && (#[trigger] old[k]).name == init[i].name;
                assert(now[k].name == children[i].name);
            } else {
                assert(now[old.len() as int].name == children[i].name);
            }
        }
    }
}

/// The devices of a system are those of its directories, one after another.
pub proof fn law_every_directory_gives_its_devices(blocks: Seq<BlockView>, block: BlockView, table: Seq<EntryView>)
    ensures
        all_devices(blocks.push(block), table) == all_devices(blocks, table) + disk_and_partitions(block, table),
        all_devices(Seq::empty(), table).len() == 0,
{
    assert(blocks.push(block).drop_last() =~= blocks);
}

} // verus!
