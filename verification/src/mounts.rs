//! The mount table: reading it from text, choosing the mounts that count, and
//! looking a device up in it.

use vstd::prelude::*;
use vstd::utf8::encode_utf8;

use crate::device::{Device, DeviceView, Kind, Mount, MountView};
use crate::number::{parse_unsigned, unsigned_within, value};
use crate::path::{
    components, counts, file_name, join, law_joined_names_come_apart_again, parent, path_file_name, path_join, path_parent, path_with_file_name, same_path,
    trimmed_path, with_file_name,
};
use crate::text::{
    cut_first, cut_last, fields, joined, law_fields_make_the_text, law_joined_pieces_are_the_fields,
    law_text_is_cut_at_the_first, law_text_is_cut_at_the_last, law_trimmed_text_stays,
    law_words_are_told_apart_by_space, law_words_of_two_texts, lines, occurs, rsplit_once, same, space, split,
    split_lines, split_once, split_words, starts_with, strip_leading, strip_trailing, trim, trimmed, without_leading,
    without_trailing, words,
};

verus! {

/// One line of the mount table.
#[derive(Debug)]
pub struct RawMount {
    pub device: String,
    pub path: String,
    pub fstype: String,
}

/// The values of a line of the mount table.
pub ghost struct RawMountView {
    pub device: Seq<char>,
    pub path: Seq<char>,
    pub fstype: Seq<char>,
}

impl View for RawMount {
    type V = RawMountView;

    open spec fn view(&self) -> RawMountView {
        RawMountView { device: self.device@, path: self.path@, fstype: self.fstype@ }
    }
}

impl DeepView for RawMount {
    type V = RawMountView;

    open spec fn deep_view(&self) -> RawMountView {
        self@
    }
}

/// The text whose code points are the bytes.
pub open spec fn latin(b: Seq<u8>) -> Seq<char> {
    b.map_values(|x: u8| x as char)
}

/// What an escape at a position stands for: a backslash and three more bytes
/// that write a byte in octal.
pub open spec fn escape(b: Seq<u8>, i: int) -> Option<nat> {
    if 0 <= i && i + 3 < b.len() && b[i] == 92 {
        unsigned_within(latin(b.subrange(i + 1, i + 4)), 8, 255)
    } else {
        None
    }
}

/// The text from a position on, with its escapes resolved.
pub open spec fn unescaped_from(b: Seq<u8>, i: int) -> Seq<char>
    decreases b.len() - i,
{
    if i < 0 || i >= b.len() {
        Seq::empty()
    } else {
        match escape(b, i) {
            Some(v) => seq![v as char] + unescaped_from(b, i + 4),
            None => seq![b[i] as char] + unescaped_from(b, i + 1),
        }
    }
}

/// The text with its escapes resolved, byte by byte.
pub open spec fn unescaped(s: Seq<char>) -> Seq<char> {
    unescaped_from(encode_utf8(s), 0)
}

/// How the kernel writes a byte of a path: space, tab, line feed and backslash
/// in octal.
pub open spec fn kernel_byte(c: u8) -> Seq<u8> {
    if c == 32 {
        seq![92, 48, 52, 48]
    } else if c == 9 {
        seq![92, 48, 49, 49]
    } else if c == 10 {
        seq![92, 48, 49, 50]
    } else if c == 92 {
        seq![92, 49, 51, 52]
    } else {
        seq![c]
    }
}

/// How the kernel writes a path.
pub open spec fn kernel_form(b: Seq<u8>) -> Seq<u8>
    decreases b.len(),
{
    if b.len() == 0 {
        Seq::empty()
    } else {
        kernel_byte(b[0]) + kernel_form(b.skip(1))
    }
}

proof fn lemma_unescaped_behind(prefix: Seq<u8>, b: Seq<u8>, i: int)
    requires
        i >= 0,
    ensures
        unescaped_from(prefix + b, prefix.len() + i) == unescaped_from(b, i),
    decreases b.len() - i,
{
    let all = prefix + b;
    let at = prefix.len() + i;
    if i < b.len() {
        assert(all[at] == b[i]);
        if i + 3 < b.len() {
            assert(all.subrange(at + 1, at + 4) =~= b.subrange(i + 1, i + 4));
        }
        assert(escape(all, at) == escape(b, i));
        lemma_unescaped_behind(prefix, b, i + 1);
        if i + 4 <= b.len() {
            lemma_unescaped_behind(prefix, b, i + 4);
        }
    }
}

proof fn lemma_octal_digits(a: u8, b: u8, c: u8)
    requires
        48 <= a < 56,
        48 <= b < 56,
        48 <= c < 56,
        (a - 48) * 64 + (b - 48) * 8 + (c - 48) <= 255,
    ensures
        unsigned_within(latin(seq![a, b, c]), 8, 255) == Some(
            ((a - 48) * 64 + (b - 48) * 8 + (c - 48)) as nat,
        ),
{
    let s = latin(seq![a, b, c]);
    assert(s =~= seq![a as char, b as char, c as char]);
    assert(s.drop_last() =~= seq![a as char, b as char]);
    assert(s.drop_last().drop_last() =~= seq![a as char]);
    assert(s.drop_last().drop_last().drop_last() =~= Seq::<char>::empty());
    reveal_with_fuel(value, 4);
    assert(s[0] != '+');
}

/// A path that the kernel has escaped is read as it was, byte for byte.
pub proof fn law_kernel_escapes_are_undone(b: Seq<u8>)
    ensures
        unescaped_from(kernel_form(b), 0) == latin(b),
    decreases b.len(),
{
    if b.len() == 0 {
        assert(latin(b) =~= Seq::<char>::empty());
    } else {
        let rest = kernel_form(b.skip(1));
        let first = kernel_byte(b[0]);
        let all = first + rest;
        law_kernel_escapes_are_undone(b.skip(1));
        lemma_unescaped_behind(first, rest, 0);
        if first.len() == 4 {
            assert(all.subrange(1, 4) =~= seq![first[1], first[2], first[3]]);
            lemma_octal_digits(first[1], first[2], first[3]);
            assert(escape(all, 0) == Some(b[0] as nat));
        } else {
            assert(all[0] == b[0]);
        }
        assert(latin(b) =~= seq![b[0] as char] + latin(b.skip(1)));
    }
}

/// The byte that three bytes write in octal.
fn octal(b: &[u8], i: usize) -> (r: Option<u8>)
    requires
        i + 3 < b@.len(),
    ensures
        match r {
            Some(v) => unsigned_within(latin(b@.subrange(i + 1, i + 4)), 8, 255) == Some(v as nat),
            None => unsigned_within(latin(b@.subrange(i + 1, i + 4)), 8, 255) is None,
        },
{
    assert(i + 3 < b.len());
    let mut s = String::new();
    s.push(b[i + 1] as char);
    s.push(b[i + 2] as char);
    s.push(b[i + 3] as char);
    assert(s@ =~= latin(b@.subrange(i + 1, i + 4)));
    match parse_unsigned(s.as_str(), 8, 255) {
        Some(v) => Some(v as u8),
        None => None,
    }
}

/// Resolves the octal escapes that `/proc/mounts` writes for spaces and friends.
pub fn unescape_octal(s: &str) -> (r: String)
    ensures
        r@ == unescaped(s@),
{
    let b = s.as_bytes();
    let n: usize = b.len();
    let mut out = String::new();
    let mut i: usize = 0;
    assert(out@ + unescaped_from(b@, 0) =~= unescaped_from(b@, 0));
    while i < n
        invariant
            i <= n == b@.len(),
            out@ + unescaped_from(b@, i as int) == unescaped_from(b@, 0),
        decreases n - i,
    {
        let ghost done = out@;
        if b[i] == 92u8 && n - i > 3 {
            if let Some(v) = octal(b, i) {
                out.push(v as char);
                assert(done.push(v as char) + unescaped_from(b@, i + 4) =~= done + unescaped_from(
                    b@,
                    i as int,
                ));
                i = i + 4;
                continue;
            }
        }
        assert(escape(b@, i as int) is None);
        out.push(b[i] as char);
        assert(done.push(b@[i as int] as char) + unescaped_from(b@, i + 1) =~= done + unescaped_from(
            b@,
            i as int,
        ));
        i += 1;
    }
    assert(out@ + unescaped_from(b@, i as int) =~= out@);
    out
}

/// A line of `/proc/self/mounts`: device, escaped path and type, separated by
/// white space, and more that is not read.
pub open spec fn linux_mount(line: Seq<char>) -> Option<RawMountView> {
    let w = words(line);
    if w.len() < 3 {
        None
    } else {
        Some(RawMountView { device: w[0], path: unescaped(w[1]), fstype: w[2] })
    }
}

/// A line that `mount` prints on macOS:
/// `/dev/disk1s5 on / (apfs, local, read-only, journaled)`.
pub open spec fn macos_mount(line: Seq<char>) -> Option<RawMountView> {
    match cut_first(line, " on "@) {
        None => None,
        Some((device, rest)) => match cut_last(rest, " ("@) {
            None => None,
            Some((path, options)) => Some(
                RawMountView {
                    device,
                    path,
                    fstype: trimmed(fields(without_trailing(options, ')'), ',')[0]),
                },
            ),
        },
    }
}

/// Which system's mount table a text holds.
#[derive(Debug, Clone, Copy, PartialEq, Eq, Structural)]
pub enum System {
    Linux,
    MacOs,
}

/// A line of a mount table.
pub open spec fn mount_line(system: System, line: Seq<char>) -> Option<RawMountView> {
    match system {
        System::Linux => linux_mount(line),
        System::MacOs => macos_mount(line),
    }
}

/// The lines of a mount table that can be read.
pub open spec fn mount_lines(system: System, all: Seq<Seq<char>>) -> Seq<RawMountView>
    decreases all.len(),
{
    if all.len() == 0 {
        Seq::empty()
    } else {
        let init = mount_lines(system, all.drop_last());
        match mount_line(system, all.last()) {
            Some(m) => init.push(m),
            None => init,
        }
    }
}

fn read_linux(line: &str) -> (r: Option<RawMount>)
    ensures
        r.deep_view() == linux_mount(line@),
{
    let w = split_words(line);
    assert(w.deep_view().len() == w@.len());
    if w.len() < 3 {
        return None;
    }
    assert(w.deep_view()[0] == w@[0]@ && w.deep_view()[1] == w@[1]@ && w.deep_view()[2] == w@[2]@);
    Some(
        RawMount {
            device: w[0].clone(),
            path: unescape_octal(w[1].as_str()),
            fstype: w[2].clone(),
        },
    )
}

fn read_macos(line: &str) -> (r: Option<RawMount>)
    ensures
        r.deep_view() == macos_mount(line@),
{
    match split_once(line, " on ") {
        None => None,
        Some((device, rest)) => match rsplit_once(rest.as_str(), " (") {
            None => None,
            Some((path, options)) => {
                let list = split(strip_trailing(options.as_str(), ')').as_str(), ',');
                assert(list.deep_view()[0] == list@[0]@);
                Some(RawMount { device, path, fstype: trim(list[0].as_str()) })
            },
        },
    }
}

/// Reads a mount table.
pub fn raw_mounts(system: System, text: &str) -> (r: Vec<RawMount>)
    ensures
        r.deep_view() == mount_lines(system, lines(text@)),
{
    let rows = split_lines(text);
    let ghost all = rows.deep_view();
    let mut out: Vec<RawMount> = Vec::new();
    let mut i: usize = 0;
    assert(out.deep_view() =~= mount_lines(system, all.take(0)));
    while i < rows.len()
        invariant
            i <= rows@.len(),
            all == rows.deep_view(),
            all.len() == rows@.len(),
            out.deep_view() == mount_lines(system, all.take(i as int)),
        decreases rows@.len() - i,
    {
        let ghost done = out.deep_view();
        assert(all.take(i + 1).drop_last() =~= all.take(i as int));
        assert(all.take(i + 1).last() == rows@[i as int]@);
        let line = match system {
            System::Linux => read_linux(rows[i].as_str()),
            System::MacOs => read_macos(rows[i].as_str()),
        };
        if let Some(m) = line {
            out.push(m);
            assert(out.deep_view() =~= done.push(m@));
        }
        i += 1;
    }
    assert(all.take(i as int) =~= all);
    out
}

/// Whether a mount is of a device, on a filesystem that may be a target.
pub open spec fn eligible(m: RawMountView) -> bool {
    &&& "/"@.is_prefix_of(m.device)
    &&& m.fstype != "squashfs"@
    &&& m.fstype != "iso9660"@
    &&& m.fstype != "devtmpfs"@
}

/// Whether a mount is of a device, on a filesystem that may be a target: pseudo
/// filesystems are never a useful one.
pub fn is_eligible(m: &RawMount) -> (r: bool)
    ensures
        r == eligible(m@),
{
    starts_with(m.device.as_str(), "/") && !same(m.fstype.as_str(), "squashfs") && !same(
        m.fstype.as_str(),
        "iso9660",
    ) && !same(m.fstype.as_str(), "devtmpfs")
}

/// What the system says of a directory.
#[derive(Debug, Clone, Copy)]
pub struct Facts {
    pub writable: bool,
    /// Blocks that unprivileged users can have, which is the number that
    /// matters for a scratch file, and the size of one; none where the
    /// filesystem cannot be asked.
    pub blocks: Option<(u64, u64)>,
}

/// Free bytes of a filesystem, the largest number that fits at most.
pub open spec fn free_bytes(blocks: Option<(u64, u64)>) -> u64 {
    match blocks {
        None => 0,
        Some((count, size)) => if count * size <= u64::MAX {
            (count * size) as u64
        } else {
            u64::MAX
        },
    }
}

/// Free bytes of a filesystem.
pub fn free_space(blocks: Option<(u64, u64)>) -> (r: u64)
    ensures
        r == free_bytes(blocks),
{
    match blocks {
        None => 0,
        Some((count, size)) => {
            assert(count as u128 * size as u128 <= u128::MAX) by (nonlinear_arith)
                requires
                    count <= u64::MAX,
                    size <= u64::MAX,
            ;
            let bytes: u128 = count as u128 * size as u128;
            if bytes <= u64::MAX as u128 {
                bytes as u64
            } else {
                u64::MAX
            }
        },
    }
}

/// A mount of a device.
#[derive(Debug)]
pub struct Entry {
    /// Path of the device, with its links followed.
    pub device: String,
    pub mount: Mount,
}

/// The values of a mount of a device.
pub ghost struct EntryView {
    pub device: Seq<char>,
    pub mount: MountView,
}

impl View for Entry {
    type V = EntryView;

    open spec fn view(&self) -> EntryView {
        EntryView { device: self.device@, mount: self.mount@ }
    }
}

impl DeepView for Entry {
    type V = EntryView;

    open spec fn deep_view(&self) -> EntryView {
        self@
    }
}

/// The first entry of a device, not before `from`.
pub open spec fn entry_from(table: Seq<EntryView>, device: Seq<char>, from: int) -> Option<int>
    decreases table.len() - from,
{
    if from < 0 || from >= table.len() {
        None
    } else if components(table[from].device) == components(device) {
        Some(from)
    } else {
        entry_from(table, device, from + 1)
    }
}

/// The mount of a device.
pub open spec fn mount_of(table: Seq<EntryView>, device: Seq<char>) -> Option<MountView> {
    match entry_from(table, device, 0) {
        Some(i) => Some(table[i].mount),
        None => None,
    }
}

/// A table with a mount added, where its device has none yet.
pub open spec fn noted(table: Seq<EntryView>, entry: EntryView) -> Seq<EntryView> {
    if mount_of(table, entry.device) is Some {
        table
    } else {
        table.push(entry)
    }
}

/// A table with mounts added one after another.
pub open spec fn all_noted(table: Seq<EntryView>, entries: Seq<EntryView>) -> Seq<EntryView>
    decreases entries.len(),
{
    if entries.len() == 0 {
        table
    } else {
        noted(all_noted(table, entries.drop_last()), entries.last())
    }
}

fn find_entry(table: &Vec<Entry>, device: &str) -> (r: Option<usize>)
    ensures
        match r {
            Some(i) => i < table@.len() && entry_from(table.deep_view(), device@, 0) == Some(i as int),
            None => entry_from(table.deep_view(), device@, 0) is None,
        },
{
    let ghost all = table.deep_view();
    let mut i: usize = 0;
    while i < table.len()
        invariant
            i <= table@.len(),
            all == table.deep_view(),
            all.len() == table@.len(),
            entry_from(all, device@, 0) == entry_from(all, device@, i as int),
        decreases table@.len() - i,
    {
        assert(all[i as int] == table@[i as int]@);
        if same_path(table[i].device.as_str(), device) {
            return Some(i);
        }
        i += 1;
    }
    None
}

fn note(table: &mut Vec<Entry>, entry: Entry)
    ensures
        final(table).deep_view() == noted(old(table).deep_view(), entry@),
{
    let ghost before = table.deep_view();
    if find_entry(table, entry.device.as_str()).is_none() {
        table.push(entry);
        assert(table.deep_view() =~= before.push(entry@));
    }
}

/// Only the first mount of a device is kept, however many follow.
pub proof fn law_first_mount_is_kept(table: Seq<EntryView>, entries: Seq<EntryView>, device: Seq<char>)
    requires
        mount_of(table, device) is Some,
    ensures
        mount_of(all_noted(table, entries), device) == mount_of(table, device),
    decreases entries.len(),
{
    if entries.len() > 0 {
        let init = all_noted(table, entries.drop_last());
        law_first_mount_is_kept(table, entries.drop_last(), device);
        lemma_push_keeps_entry(init, entries.last(), device, 0);
    }
}

proof fn lemma_push_keeps_entry(table: Seq<EntryView>, entry: EntryView, device: Seq<char>, from: int)
    requires
        0 <= from,
        entry_from(table, device, from) is Some,
    ensures
        entry_from(table.push(entry), device, from) == entry_from(table, device, from),
        from <= entry_from(table, device, from)->0 < table.len(),
    decreases table.len() - from,
{
    if from < table.len() && components(table[from].device) != components(device) {
        lemma_push_keeps_entry(table, entry, device, from + 1);
    }
}

/// A device-mapper node and the devices right beneath it.
#[derive(Debug)]
pub struct Node {
    pub name: String,
    pub slaves: Vec<String>,
}

/// The values of a device-mapper node.
pub ghost struct NodeView {
    pub name: Seq<char>,
    pub slaves: Seq<Seq<char>>,
}

impl View for Node {
    type V = NodeView;

    open spec fn view(&self) -> NodeView {
        NodeView { name: self.name@, slaves: self.slaves.deep_view() }
    }
}

impl DeepView for Node {
    type V = NodeView;

    open spec fn deep_view(&self) -> NodeView {
        self@
    }
}

/// The first node of a name, not before `from`.
pub open spec fn node_from(nodes: Seq<NodeView>, name: Seq<char>, from: int) -> Option<int>
    decreases nodes.len() - from,
{
    if from < 0 || from >= nodes.len() {
        None
    } else if nodes[from].name == name {
        Some(from)
    } else {
        node_from(nodes, name, from + 1)
    }
}

/// Physical devices beneath a device-mapper node, following stacks such as
/// LVM-on-LUKS, down to a limit.
pub open spec fn beneath(name: Seq<char>, depth: int, nodes: Seq<NodeView>) -> Seq<Seq<char>>
    decreases 5 - depth, 1int, 0int,
{
    if depth > 4 {
        Seq::empty()
    } else {
        match node_from(nodes, name, 0) {
            Some(i) => beneath_all(nodes[i].slaves, depth, nodes),
            None => Seq::empty(),
        }
    }
}

/// Physical devices among some devices and beneath them.
pub open spec fn beneath_all(slaves: Seq<Seq<char>>, depth: int, nodes: Seq<NodeView>) -> Seq<Seq<char>>
    decreases 5 - depth, 0int, slaves.len(),
    when depth <= 4
{
    if slaves.len() == 0 {
        Seq::empty()
    } else {
        let init = beneath_all(slaves.drop_last(), depth, nodes);
        if "dm-"@.is_prefix_of(slaves.last()) {
            init + beneath(slaves.last(), depth + 1, nodes)
        } else {
            init.push(slaves.last())
        }
    }
}

fn find_node(nodes: &Vec<Node>, name: &str) -> (r: Option<usize>)
    ensures
        match r {
            Some(i) => i < nodes@.len() && node_from(nodes.deep_view(), name@, 0) == Some(i as int),
            None => node_from(nodes.deep_view(), name@, 0) is None,
        },
{
    let ghost all = nodes.deep_view();
    let mut i: usize = 0;
    while i < nodes.len()
        invariant
            i <= nodes@.len(),
            all == nodes.deep_view(),
            all.len() == nodes@.len(),
            node_from(all, name@, 0) == node_from(all, name@, i as int),
        decreases nodes@.len() - i,
    {
        assert(all[i as int] == nodes@[i as int]@);
        if same(nodes[i].name.as_str(), name) {
            return Some(i);
        }
        i += 1;
    }
    None
}

/// Physical devices beneath a device-mapper node. The depth limit is pure
/// paranoia against a cycle.
pub fn dm_parents(name: &str, depth: usize, nodes: &Vec<Node>) -> (r: Vec<String>)
    ensures
        r.deep_view() == beneath(name@, depth as int, nodes.deep_view()),
    decreases 5 - depth,
{
    let mut out: Vec<String> = Vec::new();
    assert(out.deep_view() =~= Seq::<Seq<char>>::empty());
    if depth > 4 {
        return out;
    }
    let at = match find_node(nodes, name) {
        Some(i) => i,
        None => {
            return out;
        },
    };
    let slaves = &nodes[at].slaves;
    let ghost all = slaves.deep_view();
    assert(nodes.deep_view()[at as int] == nodes@[at as int]@);
    let mut i: usize = 0;
    assert(out.deep_view() =~= beneath_all(all.take(0), depth as int, nodes.deep_view()));
    while i < slaves.len()
        invariant
            i <= slaves@.len(),
            depth <= 4,
            all == slaves.deep_view(),
            all.len() == slaves@.len(),
            out.deep_view() == beneath_all(all.take(i as int), depth as int, nodes.deep_view()),
        decreases slaves@.len() - i,
    {
        let ghost done = out.deep_view();
        assert(all.take(i + 1).drop_last() =~= all.take(i as int));
        assert(all.take(i + 1).last() == slaves@[i as int]@);
        if starts_with(slaves[i].as_str(), "dm-") {
            let mut more = dm_parents(slaves[i].as_str(), depth + 1, nodes);
            let ghost below = more.deep_view();
            let ghost list = more@;
            let ghost had = out@;
            out.append(&mut more);
            assert(out@ =~= had + list);
            assert(out.deep_view() =~= done + below);
        } else {
            out.push(slaves[i].clone());
            assert(out.deep_view() =~= done.push(slaves@[i as int]@));
        }
        i += 1;
    }
    assert(all.take(i as int) =~= all);
    out
}

/// Whether a device is a device-mapper node.
pub open spec fn stacked(device: Seq<char>) -> bool {
    file_name(device) is Some && "dm-"@.is_prefix_of(file_name(device)->0)
}

/// The entries that a mount gives to some devices under `/dev`.
pub open spec fn aliases(names: Seq<Seq<char>>, mount: MountView) -> Seq<EntryView> {
    names.map_values(|n: Seq<char>| EntryView { device: join("/dev"@, n), mount })
}

/// A table with the aliases of its first entries added: a mount on top of a
/// device-mapper node counts as one of the devices beneath the node.
pub open spec fn resolved(table: Seq<EntryView>, first: Seq<EntryView>, nodes: Seq<NodeView>) -> Seq<EntryView>
    decreases first.len(),
{
    if first.len() == 0 {
        table
    } else {
        let init = resolved(table, first.drop_last(), nodes);
        let e = first.last();
        if stacked(e.device) {
            all_noted(init, aliases(beneath(file_name(e.device)->0, 0, nodes), e.mount))
        } else {
            init
        }
    }
}

fn note_aliases(table: &mut Vec<Entry>, names: &Vec<String>, mount: &Mount)
    ensures
        final(table).deep_view() == all_noted(
            old(table).deep_view(),
            aliases(names.deep_view(), mount@),
        ),
{
    let ghost start = table.deep_view();
    let ghost all = aliases(names.deep_view(), mount@);
    let mut i: usize = 0;
    assert(all.take(0) =~= Seq::<EntryView>::empty());
    while i < names.len()
        invariant
            i <= names@.len(),
            all == aliases(names.deep_view(), mount@),
            all.len() == names@.len(),
            table.deep_view() == all_noted(start, all.take(i as int)),
        decreases names@.len() - i,
    {
        assert(all.take(i + 1).drop_last() =~= all.take(i as int));
        assert(names.deep_view()[i as int] == names@[i as int]@);
        let entry = Entry { device: path_join("/dev", names[i].as_str()), mount: mount.clone() };
        assert(all.take(i + 1).last() == entry@);
        note(table, entry);
        i += 1;
    }
    assert(all.take(i as int) =~= all);
}

/// Attributes mounts sitting on top of device-mapper (LUKS, LVM) to the physical
/// partition underneath.
///
/// Without this, an encrypted root — the default on many desktop installs and
/// increasingly on SBC images — shows every real device as unmounted, silently
/// disabling the write passes. A real mount on the partition always takes
/// precedence over an alias.
pub fn resolve_stacked(table: &mut Vec<Entry>, nodes: &Vec<Node>)
    ensures
        final(table).deep_view() == resolved(
            old(table).deep_view(),
            old(table).deep_view(),
            nodes.deep_view(),
        ),
{
    let ghost start = table.deep_view();
    let count: usize = table.len();
    let mut i: usize = 0;
    assert(start.take(0) =~= Seq::<EntryView>::empty());
    while i < count
        invariant
            i <= count == start.len() <= table@.len(),
            table.deep_view() == resolved(start, start.take(i as int), nodes.deep_view()),
            forall|k: int| 0 <= k < count ==> (#[trigger] table@[k])@ == start[k],
        decreases count - i,
    {
        assert(start.take(i + 1).drop_last() =~= start.take(i as int));
        assert(start.take(i + 1).last() == table@[i as int]@);
        let ghost before = table.deep_view();
        if let Some(name) = path_file_name(table[i].device.as_str()) {
            if starts_with(name.as_str(), "dm-") {
                let names = dm_parents(name.as_str(), 0, nodes);
                let mount = table[i].mount.clone();
                note_aliases(table, &names, &mount);
                proof {
                    lemma_noted_extends(before, aliases(names.deep_view(), mount@));
                    assert forall|k: int| 0 <= k < count implies (#[trigger] table@[k])@ == start[k] by {
                        assert(table.deep_view()[k] == table@[k]@);
                        assert(before[k] == start[k]);
                    }
                }
            }
        }
        i += 1;
    }
    assert(start.take(i as int) =~= start);
}

proof fn lemma_noted_extends(table: Seq<EntryView>, entries: Seq<EntryView>)
    ensures
        all_noted(table, entries).len() >= table.len(),
        forall|k: int| 0 <= k < table.len() ==> #[trigger] all_noted(table, entries)[k] == table[k],
    decreases entries.len(),
{
    if entries.len() > 0 {
        lemma_noted_extends(table, entries.drop_last());
    }
}

/// A mount that a device has by itself stays its mount when aliases are added.
pub proof fn law_real_mounts_take_precedence(
    table: Seq<EntryView>,
    first: Seq<EntryView>,
    nodes: Seq<NodeView>,
    device: Seq<char>,
)
    requires
        mount_of(table, device) is Some,
    ensures
        mount_of(resolved(table, first, nodes), device) == mount_of(table, device),
    decreases first.len(),
{
    if first.len() > 0 {
        law_real_mounts_take_precedence(table, first.drop_last(), nodes, device);
        let init = resolved(table, first.drop_last(), nodes);
        let e = first.last();
        if stacked(e.device) {
            law_first_mount_is_kept(
                init,
                aliases(beneath(file_name(e.device)->0, 0, nodes), e.mount),
                device,
            );
        }
    }
}

/// A mount with what the system says of it.
#[derive(Debug)]
pub struct Candidate {
    /// Path of the device, with its links followed.
    pub device: String,
    pub path: String,
    pub fstype: String,
    pub facts: Facts,
}

/// The values of a mount with what the system says of it.
pub ghost struct CandidateView {
    pub device: Seq<char>,
    pub path: Seq<char>,
    pub fstype: Seq<char>,
    pub facts: Facts,
}

impl View for Candidate {
    type V = CandidateView;

    open spec fn view(&self) -> CandidateView {
        CandidateView {
            device: self.device@,
            path: self.path@,
            fstype: self.fstype@,
            facts: self.facts,
        }
    }
}

impl DeepView for Candidate {
    type V = CandidateView;

    open spec fn deep_view(&self) -> CandidateView {
        self@
    }
}

/// The entry of a mount.
pub open spec fn entry_of(c: CandidateView) -> EntryView {
    EntryView {
        device: c.device,
        mount: MountView {
            path: c.path,
            fstype: c.fstype,
            writable: c.facts.writable,
            free: free_bytes(c.facts.blocks),
        },
    }
}

/// The entries of some mounts, the first of each device.
pub open spec fn entries(found: Seq<CandidateView>) -> Seq<EntryView> {
    all_noted(Seq::empty(), found.map_values(|c: CandidateView| entry_of(c)))
}

/// The mount table. Only the first mount of a device is kept: bind mounts and
/// later entries would only confuse the picker.
pub fn mount_table(found: &Vec<Candidate>, nodes: &Vec<Node>) -> (r: Vec<Entry>)
    ensures
        r.deep_view() == resolved(
            entries(found.deep_view()),
            entries(found.deep_view()),
            nodes.deep_view(),
        ),
{
    let ghost all = found.deep_view().map_values(|c: CandidateView| entry_of(c));
    let mut table: Vec<Entry> = Vec::new();
    let mut i: usize = 0;
    assert(all.take(0) =~= Seq::<EntryView>::empty());
    assert(table.deep_view() =~= Seq::<EntryView>::empty());
    while i < found.len()
        invariant
            i <= found@.len(),
            all == found.deep_view().map_values(|c: CandidateView| entry_of(c)),
            all.len() == found@.len(),
            table.deep_view() == all_noted(Seq::empty(), all.take(i as int)),
        decreases found@.len() - i,
    {
        assert(all.take(i + 1).drop_last() =~= all.take(i as int));
        assert(found.deep_view()[i as int] == found@[i as int]@);
        let c = &found[i];
        let entry = Entry {
            device: c.device.clone(),
            mount: Mount {
                path: c.path.clone(),
                fstype: c.fstype.clone(),
                writable: c.facts.writable,
                free: free_space(c.facts.blocks),
            },
        };
        assert(all.take(i + 1).last() == entry@);
        note(&mut table, entry);
        i += 1;
    }
    assert(all.take(i as int) =~= all);
    resolve_stacked(&mut table, nodes);
    table
}

/// The mount of a device, under its own name or without a leading `r`.
pub open spec fn looked_up(path: Seq<char>, table: Seq<EntryView>) -> Option<MountView> {
    if mount_of(table, path) is Some {
        mount_of(table, path)
    } else {
        match file_name(path) {
            Some(name) => mount_of(table, with_file_name(path, without_leading(name, 'r'))),
            None => None,
        }
    }
}

/// The mount of a device. On macOS the raw device is `/dev/rdiskN`, and mounts
/// refer to `/dev/diskN`; checking both keeps one lookup for every platform.
pub fn lookup_mount(path: &str, table: &Vec<Entry>) -> (r: Option<Mount>)
    ensures
        r.deep_view() == looked_up(path@, table.deep_view()),
{
    if let Some(i) = find_entry(table, path) {
        assert(table.deep_view()[i as int] == table@[i as int]@);
        return Some(table[i].mount.clone());
    }
    match path_file_name(path) {
        None => None,
        Some(name) => {
            let other = strip_leading(name.as_str(), 'r');
            match find_entry(table, path_with_file_name(path, other.as_str()).as_str()) {
                None => None,
                Some(i) => {
                    assert(table.deep_view()[i as int] == table@[i as int]@);
                    Some(table[i].mount.clone())
                },
            }
        },
    }
}

/// A mount that stands for a directory of an unknown filesystem.
pub open spec fn plain_mount(path: Seq<char>, facts: Facts) -> MountView {
    MountView {
        path,
        fstype: "—"@,
        writable: facts.writable,
        free: free_bytes(facts.blocks),
    }
}

/// What the system says of a path that was named.
#[derive(Debug, Clone, Copy)]
pub struct PathFacts {
    pub is_dir: bool,
    /// Length of the file, or capacity of the device.
    pub len: u64,
    /// The path itself, as a directory.
    pub here: Facts,
    /// The directory that it is in.
    pub above: Facts,
}

/// The device that stands for a path.
pub open spec fn path_device(path: Seq<char>, facts: PathFacts, table: Seq<EntryView>) -> DeviceView {
    DeviceView {
        name: path,
        path,
        kind: Kind::Partition,
        size: if facts.is_dir {
            free_bytes(facts.here.blocks)
        } else {
            facts.len
        },
        model: if facts.is_dir {
            "directory"@
        } else {
            "file"@
        },
        rotational: None,
        removable: false,
        mount: if looked_up(path, table) is Some {
            looked_up(path, table)
        } else if facts.is_dir {
            Some(plain_mount(path, facts.here))
        } else {
            match parent(path) {
                Some(p) => Some(plain_mount(p, facts.above)),
                None => None,
            }
        },
        mount_inherited: false,
    }
}

fn plain(path: String, facts: Facts) -> (r: Mount)
    ensures
        r@ == plain_mount(path@, facts),
{
    Mount {
        path,
        fstype: "—".to_string(),
        writable: facts.writable,
        free: free_space(facts.blocks),
    }
}

/// Builds a synthetic device for a path that was named, so the rest of the
/// program does not need a special case for it. The directory of a plain file is
/// its scratch location.
pub fn from_path(path: &str, facts: PathFacts, table: &Vec<Entry>) -> (r: Device)
    ensures
        r@ == path_device(path@, facts, table.deep_view()),
{
    let size: u64 = if facts.is_dir {
        free_space(facts.here.blocks)
    } else {
        facts.len
    };
    let model = if facts.is_dir {
        "directory".to_string()
    } else {
        "file".to_string()
    };
    let mount = match lookup_mount(path, table) {
        Some(m) => Some(m),
        None => if facts.is_dir {
            Some(plain(path.to_string(), facts.here))
        } else {
            match path_parent(path) {
                Some(p) => Some(plain(p, facts.above)),
                None => None,
            }
        },
    };
    Device {
        name: path.to_string(),
        path: path.to_string(),
        kind: Kind::Partition,
        size,
        model,
        rotational: None,
        removable: false,
        mount,
        mount_inherited: false,
    }
}

/// Whether a text is one word.
pub open spec fn is_word(s: Seq<char>) -> bool {
    s.len() > 0 && forall|i: int| 0 <= i < s.len() ==> !space(#[trigger] s[i])
}

/// A line of `/proc/self/mounts` is read as it was written: first the device,
/// then the path, with its escapes resolved, then the type, whatever follows. A
/// line with less is passed over.
#[verifier::rlimit(60)]
pub proof fn law_linux_lines_read_back(device: Seq<char>, path: Seq<char>, fstype: Seq<char>, rest: Seq<char>)
    requires
        is_word(device),
        is_word(path),
        is_word(fstype),
    ensures
        linux_mount(device + seq![' '] + path + seq![' '] + fstype + seq![' '] + rest) == Some(
            RawMountView { device, path: unescaped(path), fstype },
        ),
        linux_mount(device + seq![' '] + path) is None,
        linux_mount(Seq::empty()) is None,
{
    assert(space(' '));
    law_words_are_told_apart_by_space(Seq::empty(), ' ', device);
    law_words_are_told_apart_by_space(device, ' ', path);
    assert(device + seq![' '] + path =~= device.push(' ') + path);
    let two = device.push(' ') + path;
    law_words_are_told_apart_by_space(two, ' ', fstype);
    let three = two.push(' ') + fstype;
    law_words_of_two_texts(three, ' ', rest);
    let line = device + seq![' '] + path + seq![' '] + fstype + seq![' '] + rest;
    assert(line =~= three.push(' ') + rest);
    let w = words(line);
    assert(words(three).len() == 3);
    assert(w[0] == words(three)[0] && w[1] == words(three)[1] && w[2] == words(three)[2]);
    assert(w[0] == device && w[1] == path && w[2] == fstype);
}

/// A text is cut before and after a pattern that does not stand in it any
/// earlier.
pub(crate) proof fn lemma_cut_there(a: Seq<char>, pattern: Seq<char>, b: Seq<char>)
    requires
        forall|j: int| 0 <= j < a.len() ==> !#[trigger] occurs(a + pattern + b, pattern, j),
    ensures
        cut_first(a + pattern + b, pattern) == Some((a, b)),
{
    let s = a + pattern + b;
    let n = a.len() as int;
    law_text_is_cut_at_the_first(s, pattern);
    assert(s.subrange(n, n + pattern.len()) =~= pattern);
    assert(occurs(s, pattern, n));
    let (x, y) = cut_first(s, pattern)->0;
    assert(occurs(s, pattern, x.len() as int)) by {
        assert((x + pattern + y).subrange(x.len() as int, (x.len() + pattern.len()) as int) =~= pattern);
    }
    assert(x.len() == n);
    assert((x + pattern + y).take(n) =~= x);
    assert(s.take(n) =~= a);
    assert((x + pattern + y).skip(n + pattern.len()) =~= y);
    assert(s.skip(n + pattern.len()) =~= b);
}

/// A text is cut before and after a pattern that does not stand in it any later.
proof fn lemma_cut_last_there(a: Seq<char>, pattern: Seq<char>, b: Seq<char>)
    requires
        forall|j: int| a.len() < j ==> !#[trigger] occurs(a + pattern + b, pattern, j),
    ensures
        cut_last(a + pattern + b, pattern) == Some((a, b)),
{
    let s = a + pattern + b;
    let n = a.len() as int;
    law_text_is_cut_at_the_last(s, pattern);
    assert(s.subrange(n, n + pattern.len()) =~= pattern);
    assert(occurs(s, pattern, n));
    let (x, y) = cut_last(s, pattern)->0;
    assert(occurs(s, pattern, x.len() as int)) by {
        assert((x + pattern + y).subrange(x.len() as int, (x.len() + pattern.len()) as int) =~= pattern);
    }
    assert(x.len() == n);
    assert((x + pattern + y).take(n) =~= x);
    assert(s.take(n) =~= a);
    assert((x + pattern + y).skip(n + pattern.len()) =~= y);
    assert(s.skip(n + pattern.len()) =~= b);
}

/// A line that `mount` prints on macOS is read as it was written: the device,
/// the path, which may hold blanks and brackets, and the first of the words in
/// brackets, which is the type.
#[verifier::rlimit(60)]
pub proof fn law_macos_lines_read_back(device: Seq<char>, path: Seq<char>, fstype: Seq<char>, more: Seq<char>)
    requires
        is_word(device),
        is_word(fstype),
        !fstype.contains(','),
        !fstype.contains('('),
        !more.contains('('),
        !more.contains(')'),
    ensures
        macos_mount(device + " on "@ + (path + " ("@ + (fstype + seq![','] + more).push(')'))) == Some(
            RawMountView { device, path, fstype },
        ),
{
    reveal_strlit(" on ");
    reveal_strlit(" (");
    let on = " on "@;
    let open = " ("@;
    assert(on[0] == ' ' && open[0] == ' ' && open[1] == '(' && open.len() == 2);
    let inner = fstype + seq![','] + more;
    let options = inner.push(')');
    let rest = path + open + options;
    let line = device + on + rest;
    assert forall|j: int| 0 <= j < device.len() implies !#[trigger] occurs(line, on, j) by {
        if occurs(line, on, j) {
            assert(line.subrange(j, j + on.len())[0] == on[0]);
            assert(line[j] == device[j]);
            assert(!space(device[j]));
        }
    }
    lemma_cut_there(device, on, rest);
    assert(!options.contains('(')) by {
        assert forall|i: int| 0 <= i < options.len() implies options[i] != '(' by {
            if i < fstype.len() {
                assert(options[i] == fstype[i]);
            } else if fstype.len() < i < inner.len() {
                assert(options[i] == more[i - fstype.len() - 1]);
            }
        }
    }
    let n = path.len() as int;
    assert forall|j: int| n < j implies !#[trigger] occurs(rest, open, j) by {
        if occurs(rest, open, j) {
            assert(rest.subrange(j, j + 2)[0] == open[0]);
            assert(rest.subrange(j, j + 2)[1] == open[1]);
            if j == n + 1 {
                assert(rest[j] == '(');
            } else {
                assert(rest[j + 1] == options[j + 1 - n - 2]);
            }
        }
    }
    lemma_cut_last_there(path, open, options);
    assert(inner.last() != ')') by {
        if more.len() > 0 {
            assert(inner.last() == more[more.len() - 1]);
        }
    }
    lemma_one_bracket(inner);
    law_fields_make_the_text(more, ',');
    let parts = seq![fstype] + fields(more, ',');
    assert forall|i: int| 0 <= i < parts.len() implies !(#[trigger] parts[i]).contains(',') by {
        if i > 0 {
            assert(parts[i] == fields(more, ',')[i - 1]);
        }
    }
    law_joined_pieces_are_the_fields(parts, ',');
    lemma_joined_front(fstype, fields(more, ','));
    assert(fields(inner, ',')[0] == fstype);
    assert(!space(fstype[0]) && !space(fstype[fstype.len() - 1]));
    law_trimmed_text_stays(fstype);
}

proof fn lemma_one_bracket(inner: Seq<char>)
    requires
        inner.len() > 0,
        inner.last() != ')',
    ensures
        without_trailing(inner.push(')'), ')') == inner,
{
    reveal_with_fuel(without_trailing, 2);
    assert(inner.push(')').drop_last() =~= inner);
}

proof fn lemma_joined_front(first: Seq<char>, parts: Seq<Seq<char>>)
    requires
        parts.len() > 0,
    ensures
        joined(seq![first] + parts, seq![',']) == first + seq![','] + joined(parts, seq![',']),
    decreases parts.len(),
{
    let all = seq![first] + parts;
    assert(all.last() == parts.last());
    assert(all.drop_last() =~= seq![first] + parts.drop_last());
    if parts.len() == 1 {
        assert(parts.drop_last() =~= Seq::empty());
        assert(all.drop_last() =~= seq![first]);
        reveal_with_fuel(joined, 2);
        assert(joined(all, seq![',']) == first + seq![','] + parts[0]);
    } else {
        lemma_joined_front(first, parts.drop_last());
        assert(joined(all, seq![',']) =~= first + seq![','] + joined(parts, seq![',']));
    }
}

/// Only a mount of a device counts, and not one of a filesystem that can never be
/// written to or that holds devices.
pub proof fn law_pseudo_filesystems_do_not_count(m: RawMountView, r: RawMount, ok: bool)
    requires
        m == r@,
        call_ensures(is_eligible, (&r,), ok),
    ensures
        m.device.len() == 0 || m.device[0] != '/' ==> !ok,
        m.fstype == "squashfs"@ || m.fstype == "iso9660"@ || m.fstype == "devtmpfs"@ ==> !ok,
        m.device.len() > 0 && m.device[0] == '/' && m.fstype != "squashfs"@ && m.fstype != "iso9660"@
            && m.fstype != "devtmpfs"@ ==> ok,
{
    reveal_strlit("/");
    if m.device.len() > 0 && m.device[0] == '/' {
        assert(m.device.take(1) =~= "/"@);
    }
    if "/"@.is_prefix_of(m.device) {
        assert(m.device.take(1)[0] == '/');
    }
}

/// The free space of a filesystem is its free blocks times their size, up to the
/// largest number there is; none is known of one that cannot be asked.
pub proof fn law_free_space_is_blocks_times_size(count: u64, size: u64)
    ensures
        count * size <= u64::MAX ==> free_bytes(Some((count, size))) == count * size,
        count * size > u64::MAX ==> free_bytes(Some((count, size))) == u64::MAX,
        free_bytes(None) == 0,
{
}

proof fn lemma_entry_from(table: Seq<EntryView>, device: Seq<char>, from: int)
    requires
        0 <= from,
    ensures
        match entry_from(table, device, from) {
            Some(i) => {
                &&& from <= i < table.len()
                &&& components(table[i].device) == components(device)
                &&& forall|k: int|
                    from <= k < i ==> components((#[trigger] table[k]).device) != components(device)
            },
            None => forall|k: int|
                from <= k < table.len() ==> components((#[trigger] table[k]).device) != components(device),
        },
    decreases table.len() - from,
{
    if from < table.len() && components(table[from].device) != components(device) {
        lemma_entry_from(table, device, from + 1);
    }
}

/// The mount of a device is the first one of the table whose device has the same
/// path, and none where there is none.
pub proof fn law_mounts_go_by_their_device(table: Seq<EntryView>, device: Seq<char>)
    ensures
        match mount_of(table, device) {
            Some(m) => exists|i: int|
                {
                    &&& 0 <= i < table.len()
                    &&& components((#[trigger] table[i]).device) == components(device)
                    &&& table[i].mount == m
                    &&& forall|k: int|
                        0 <= k < i ==> components((#[trigger] table[k]).device) != components(device)
                },
            None => forall|k: int|
                0 <= k < table.len() ==> components((#[trigger] table[k]).device) != components(device),
        },
{
    lemma_entry_from(table, device, 0);
    if mount_of(table, device) is Some {
        let i = entry_from(table, device, 0)->0;
        assert(table[i].mount == mount_of(table, device)->0);
    }
}

/// A mount that is added becomes that of its device where that has none yet, and
/// changes nothing for any other device.
pub proof fn law_added_mounts_are_found(table: Seq<EntryView>, entry: EntryView, device: Seq<char>)
    ensures
        mount_of(table, entry.device) is None ==> mount_of(noted(table, entry), entry.device) == Some(
            entry.mount,
        ),
        components(device) != components(entry.device) ==> mount_of(noted(table, entry), device) == mount_of(
            table,
            device,
        ),
{
    let next = noted(table, entry);
    lemma_entry_from(table, entry.device, 0);
    lemma_entry_from(next, entry.device, 0);
    lemma_entry_from(table, device, 0);
    lemma_entry_from(next, device, 0);
    assert forall|k: int| 0 <= k < table.len() implies #[trigger] next[k] == table[k] by {}
    if mount_of(table, entry.device) is None {
        let last = table.len() as int;
        assert(next[last] == entry);
        assert(entry_from(next, entry.device, 0) is Some);
        let i = entry_from(next, entry.device, 0)->0;
        if i < last {
            assert(components(table[i].device) != components(entry.device));
        }
    }
    if components(device) != components(entry.device) {
        match (entry_from(table, device, 0), entry_from(next, device, 0)) {
            (Some(i), Some(j)) => {
                if i < j {
                    assert(components(next[i].device) != components(device));
                } else if j < i {
                    assert(components(table[j].device) != components(device));
                }
            },
            (Some(i), None) => {
                assert(components(next[i].device) != components(device));
            },
            (None, Some(j)) => {
                if j < table.len() {
                    assert(components(table[j].device) != components(device));
                }
            },
            (None, None) => {},
        }
    }
}

proof fn lemma_physical(slaves: Seq<Seq<char>>, depth: int, nodes: Seq<NodeView>)
    requires
        depth <= 4,
        forall|i: int| 0 <= i < slaves.len() ==> !"dm-"@.is_prefix_of(#[trigger] slaves[i]),
    ensures
        beneath_all(slaves, depth, nodes) == slaves,
    decreases slaves.len(),
{
    if slaves.len() > 0 {
        let init = slaves.drop_last();
        assert forall|i: int| 0 <= i < init.len() implies !"dm-"@.is_prefix_of(#[trigger] init[i]) by {
            assert(init[i] == slaves[i]);
        }
        lemma_physical(init, depth, nodes);
        assert(!"dm-"@.is_prefix_of(slaves[slaves.len() - 1]));
        assert(init.push(slaves.last()) =~= slaves);
    } else {
        assert(slaves =~= Seq::empty());
    }
}

/// The devices beneath a device-mapper node that lies on devices of its own are
/// these, in their order; a node that lies on just one other node has those
/// beneath that.
pub proof fn law_devices_beneath_a_node_are_found(nodes: Seq<NodeView>, i: int, depth: int)
    requires
        0 <= i < nodes.len(),
        forall|k: int| 0 <= k < i ==> (#[trigger] nodes[k]).name != nodes[i].name,
        0 <= depth <= 4,
    ensures
        (forall|k: int| 0 <= k < nodes[i].slaves.len() ==> !"dm-"@.is_prefix_of(#[trigger] nodes[i].slaves[k]))
            ==> beneath(nodes[i].name, depth, nodes) == nodes[i].slaves,
        nodes[i].slaves.len() == 1 && "dm-"@.is_prefix_of(nodes[i].slaves[0]) ==> beneath(
            nodes[i].name,
            depth,
            nodes,
        ) == beneath(nodes[i].slaves[0], depth + 1, nodes),
{
    lemma_node_found(nodes, nodes[i].name, 0, i);
    let slaves = nodes[i].slaves;
    if forall|k: int| 0 <= k < slaves.len() ==> !"dm-"@.is_prefix_of(#[trigger] slaves[k]) {
        lemma_physical(slaves, depth, nodes);
    }
    if slaves.len() == 1 && "dm-"@.is_prefix_of(slaves[0]) {
        assert(slaves.drop_last() =~= Seq::empty());
        assert(beneath_all(slaves.drop_last(), depth, nodes) =~= Seq::empty());
        let below = beneath(slaves[0], depth + 1, nodes);
        assert(Seq::<Seq<char>>::empty() + below =~= below);
    }
}

proof fn lemma_node_found(nodes: Seq<NodeView>, name: Seq<char>, from: int, i: int)
    requires
        0 <= from <= i < nodes.len(),
        nodes[i].name == name,
        forall|k: int| from <= k < i ==> (#[trigger] nodes[k]).name != name,
    ensures
        node_from(nodes, name, from) == Some(i),
    decreases i - from,
{
    if from < i {
        assert(nodes[from].name != name);
        lemma_node_found(nodes, name, from + 1, i);
    }
}

/// A path that was named stands for a device of its own: a directory for the
/// space that is free in it, with the scratch file inside, and a file for its
/// length, with the scratch file beside it. What the mount table says of the path
/// goes before that.
pub proof fn law_named_paths_stand_for_devices(
    path: Seq<char>,
    facts: PathFacts,
    table: Seq<EntryView>,
)
    ensures
        ({
            let d = path_device(path, facts, table);
            &&& d.name == path && d.path == path
            &&& facts.is_dir ==> d.size == free_bytes(facts.here.blocks)
            &&& !facts.is_dir ==> d.size == facts.len
            &&& mount_of(table, path) is Some ==> d.mount == mount_of(table, path)
            &&& looked_up(path, table) is None && facts.is_dir ==> {
                &&& d.mount is Some
                &&& d.mount->0.path == path
                &&& d.mount->0.writable == facts.here.writable
                &&& d.mount->0.free == free_bytes(facts.here.blocks)
            }
            &&& looked_up(path, table) is None && !facts.is_dir && parent(path) is Some ==> {
                &&& d.mount is Some
                &&& d.mount->0.path == parent(path)->0
                &&& d.mount->0.writable == facts.above.writable
                &&& d.mount->0.free == free_bytes(facts.above.blocks)
            }
            &&& !d.mount_inherited && !d.removable && d.rotational is None
            &&& d.kind == Kind::Partition
            &&& facts.is_dir ==> d.model == "directory"@
            &&& !facts.is_dir ==> d.model == "file"@
        }),
{
}

/// Every line of a mount table that can be read gives a mount, in the order of
/// the lines, and no other does.
pub proof fn law_readable_lines_give_mounts(system: System, all: Seq<Seq<char>>, line: Seq<char>)
    ensures
        mount_line(system, line) is Some ==> mount_lines(system, all.push(line)) == mount_lines(
            system,
            all,
        ).push(mount_line(system, line)->0),
        mount_line(system, line) is None ==> mount_lines(system, all.push(line)) == mount_lines(system, all),
        mount_lines(system, Seq::empty()).len() == 0,
        mount_line(System::Linux, line) == linux_mount(line),
        mount_line(System::MacOs, line) == macos_mount(line),
{
    assert(all.push(line).drop_last() =~= all);
}

proof fn lemma_noted_in_order(entries: Seq<EntryView>, i: int)
    requires
        0 <= i < entries.len(),
        forall|k: int| 0 <= k < i ==> components((#[trigger] entries[k]).device) != components(entries[i].device),
    ensures
        mount_of(all_noted(Seq::empty(), entries), entries[i].device) == Some(entries[i].mount),
    decreases entries.len(),
{
    let init = entries.drop_last();
    let e = entries[i];
    let before = all_noted(Seq::empty(), init);
    if i < init.len() {
        assert(init[i] == e);
        assert forall|k: int| 0 <= k < i implies components((#[trigger] init[k]).device) != components(
            init[i].device,
        ) by {
            assert(init[k] == entries[k]);
        }
        lemma_noted_in_order(init, i);
        law_first_mount_is_kept(before, seq![entries.last()], e.device);
        assert(seq![entries.last()].drop_last() =~= Seq::empty());
        assert(all_noted(before, seq![entries.last()]) == noted(all_noted(before, Seq::empty()), entries.last()));
        assert(all_noted(before, Seq::<EntryView>::empty()) == before);
    } else {
        assert forall|k: int| 0 <= k < init.len() implies components((#[trigger] init[k]).device) != components(
            e.device,
        ) by {
            assert(init[k] == entries[k]);
        }
        lemma_not_noted(init, e.device);
        law_added_mounts_are_found(before, e, e.device);
    }
}

proof fn lemma_not_noted(entries: Seq<EntryView>, device: Seq<char>)
    requires
        forall|k: int| 0 <= k < entries.len() ==> components((#[trigger] entries[k]).device) != components(device),
    ensures
        mount_of(all_noted(Seq::empty(), entries), device) is None,
    decreases entries.len(),
{
    if entries.len() > 0 {
        let init = entries.drop_last();
        assert forall|k: int| 0 <= k < init.len() implies components((#[trigger] init[k]).device) != components(
            device,
        ) by {
            assert(init[k] == entries[k]);
        }
        lemma_not_noted(init, device);
        assert(components(entries[entries.len() - 1].device) != components(device));
        law_added_mounts_are_found(all_noted(Seq::empty(), init), entries.last(), device);
    } else {
        assert(all_noted(Seq::empty(), entries) =~= Seq::empty());
    }
}

/// Of several mounts of one device the first one counts, with its path, its type,
/// whether it can be written to, and the space that is free there.
pub proof fn law_first_candidate_counts(found: Seq<CandidateView>, i: int)
    requires
        0 <= i < found.len(),
        forall|k: int| 0 <= k < i ==> components((#[trigger] found[k]).device) != components(found[i].device),
    ensures
        ({
            let m = mount_of(entries(found), found[i].device);
            &&& m is Some
            &&& m->0.path == found[i].path && m->0.fstype == found[i].fstype
            &&& m->0.writable == found[i].facts.writable
            &&& m->0.free == free_bytes(found[i].facts.blocks)
        }),
{
    let list = found.map_values(|c: CandidateView| entry_of(c));
    assert forall|k: int| 0 <= k < i implies components((#[trigger] list[k]).device) != components(
        list[i].device,
    ) by {
        assert(components(found[k].device) != components(found[i].device));
    }
    lemma_noted_in_order(list, i);
}

proof fn lemma_all_noted_found(table: Seq<EntryView>, entries: Seq<EntryView>, i: int)
    requires
        0 <= i < entries.len(),
    ensures
        mount_of(all_noted(table, entries), entries[i].device) is Some,
    decreases entries.len(),
{
    let init = entries.drop_last();
    let before = all_noted(table, init);
    if i < init.len() {
        assert(init[i] == entries[i]);
        lemma_all_noted_found(table, init, i);
        if components(entries[i].device) != components(entries.last().device) {
            law_added_mounts_are_found(before, entries.last(), entries[i].device);
        } else {
            lemma_push_keeps_entry(before, entries.last(), entries[i].device, 0);
        }
    } else {
        law_added_mounts_are_found(before, entries.last(), entries.last().device);
    }
}

/// A mount on top of a device-mapper node reaches the devices beneath it: each of
/// these is mounted once the table is resolved.
pub proof fn law_mounts_reach_the_devices_beneath(
    table: Seq<EntryView>,
    first: Seq<EntryView>,
    nodes: Seq<NodeView>,
    i: int,
    k: int,
)
    requires
        0 <= i < first.len(),
        stacked(first[i].device),
        0 <= k < beneath(file_name(first[i].device)->0, 0, nodes).len(),
    ensures
        mount_of(
            resolved(table, first, nodes),
            join("/dev"@, beneath(file_name(first[i].device)->0, 0, nodes)[k]),
        ) is Some,
    decreases first.len(),
{
    let init = first.drop_last();
    let names = beneath(file_name(first[i].device)->0, 0, nodes);
    let device = join("/dev"@, names[k]);
    let before = resolved(table, init, nodes);
    if i < init.len() {
        assert(init[i] == first[i]);
        law_mounts_reach_the_devices_beneath(table, init, nodes, i, k);
        let e = first.last();
        if stacked(e.device) {
            law_first_mount_is_kept(
                before,
                aliases(beneath(file_name(e.device)->0, 0, nodes), e.mount),
                device,
            );
        }
    } else {
        let list = aliases(names, first[i].mount);
        assert(list[k].device == device);
        lemma_all_noted_found(before, list, k);
    }
}

/// A device is looked up under its own path; a raw device of macOS, whose name
/// has an `r` before that of the device proper, is found by that as well.
pub proof fn law_raw_devices_are_found(name: Seq<char>, table: Seq<EntryView>)
    requires
        name.len() > 0,
        name[0] != 'r',
        counts(name),
        name != seq!['.', '.'],
        !name.contains('/'),
    ensures
        mount_of(table, join("/dev"@, name)) is Some ==> looked_up(join("/dev"@, name), table) == mount_of(
            table,
            join("/dev"@, name),
        ),
        mount_of(table, join("/dev"@, seq!['r'] + name)) is None ==> looked_up(
            join("/dev"@, seq!['r'] + name),
            table,
        ) == mount_of(table, join("/dev"@, name)),
        mount_of(table, join("/dev"@, seq!['r'] + name)) is Some ==> looked_up(
            join("/dev"@, seq!['r'] + name),
            table,
        ) == mount_of(table, join("/dev"@, seq!['r'] + name)),
{
    reveal_strlit("/dev");
    let dev = "/dev"@;
    let raw = seq!['r'] + name;
    assert(!raw.contains('/')) by {
        assert forall|i: int| 0 <= i < raw.len() implies raw[i] != '/' by {
            if i > 0 {
                assert(raw[i] == name[i - 1]);
            }
        }
    }
    assert(raw.len() >= 2 && raw[0] == 'r');
    assert(counts(raw));
    assert(raw != seq!['.', '.']) by {
        assert(seq!['.', '.'][0] == '.');
    }
    law_joined_names_come_apart_again(dev, raw);
    reveal_with_fuel(without_leading, 2);
    assert(raw.drop_first() =~= name);
    assert(without_leading(raw, 'r') == name);
    assert(trimmed_path(dev) == dev);
}

} // verus!
