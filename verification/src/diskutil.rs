//! Devices as macOS lists them, in the columns that `diskutil list` prints.

use vstd::prelude::*;

use crate::device::{Device, DeviceView, Kind};
use crate::double::{
    close, law_products_are_close, lemma_close_follows, lemma_close_scales, lemma_value_sign, product, rounded, value_of,
    whole_part, Double, Dyadic,
};
use crate::mounts::{is_word, lemma_cut_there, lookup_mount, looked_up, Entry, EntryView};
use crate::number::{decimal, is_digit, law_decimals_read_back, parse_unsigned, unsigned_within};
use crate::path::{join, path_join};
use crate::ratio::{lemma_nothing, lemma_swap, lemma_times};
use crate::text::{
    behind, cut_first, join as join_text, joined, law_trimmed_text_stays, law_words_are_told_apart_by_space,
    law_words_of_two_texts, lines, occurs, same, space, split_lines, split_once, split_words, starts_with, strip_leading, strip_prefix, trim, trimmed,
    without_leading, words,
};
use crate::time::lemma_count_is_close;

verus! {

/// A row of the list: a device with its size as it is printed.
#[derive(Debug)]
pub struct Row {
    pub ident: String,
    pub kind: Kind,
    pub model: String,
    /// Number and unit of the size.
    pub size: Option<(String, String)>,
}

/// The values of a row.
pub ghost struct RowView {
    pub ident: Seq<char>,
    pub kind: Kind,
    pub model: Seq<char>,
    pub size: Option<(Seq<char>, Seq<char>)>,
}

impl View for Row {
    type V = RowView;

    open spec fn view(&self) -> RowView {
        RowView {
            ident: self.ident@,
            kind: self.kind,
            model: self.model@,
            size: self.size.deep_view(),
        }
    }
}

impl DeepView for Row {
    type V = RowView;

    open spec fn deep_view(&self) -> RowView {
        self@
    }
}

/// The disk that a heading names: `/dev/disk0 (internal, physical):`.
pub open spec fn heading(line: Seq<char>) -> Option<Seq<char>> {
    match behind(trimmed(line), "/dev/"@) {
        Some(rest) => Some(
            if words(rest).len() > 0 {
                words(rest)[0]
            } else {
                Seq::empty()
            },
        ),
        None => None,
    }
}

/// What the fields between the colon and the size of a row name: the volume, or
/// the type where it has no name.
pub open spec fn row_model(fields: Seq<Seq<char>>) -> Seq<char> {
    let end = if fields.len() >= 3 {
        fields.len() - 3
    } else {
        0
    };
    if end > 1 && joined(fields.subrange(1, end), " "@).len() > 0 {
        joined(fields.subrange(1, end), " "@)
    } else {
        fields[0]
    }
}

/// A row below the heading of a disk:
/// `0:      GUID_partition_scheme   *500.3 GB   disk0`.
pub open spec fn row(line: Seq<char>, disk: Seq<char>) -> Option<RowView> {
    match cut_first(trimmed(line), ":"@) {
        None => None,
        Some((index, rest)) => {
            let f = words(rest);
            if unsigned_within(trimmed(index), 10, u32::MAX as nat) is None || f.len() == 0
                || !"disk"@.is_prefix_of(f.last()) {
                None
            } else {
                Some(
                    RowView {
                        ident: f.last(),
                        kind: if f.last() == disk {
                            Kind::Disk
                        } else {
                            Kind::Partition
                        },
                        model: row_model(f),
                        size: if f.len() >= 3 {
                            Some((f[f.len() - 3], f[f.len() - 2]))
                        } else {
                            None
                        },
                    },
                )
            }
        },
    }
}

/// The disk that the last of some lines belongs to.
pub open spec fn current_disk(all: Seq<Seq<char>>) -> Seq<char>
    decreases all.len(),
{
    if all.len() == 0 {
        Seq::empty()
    } else {
        match heading(all.last()) {
            Some(d) => d,
            None => current_disk(all.drop_last()),
        }
    }
}

/// The rows among some lines.
pub open spec fn rows(all: Seq<Seq<char>>) -> Seq<RowView>
    decreases all.len(),
{
    if all.len() == 0 {
        Seq::empty()
    } else {
        let init = rows(all.drop_last());
        if heading(all.last()) is Some {
            init
        } else {
            match row(all.last(), current_disk(all.drop_last())) {
                Some(r) => init.push(r),
                None => init,
            }
        }
    }
}

fn read_heading(line: &str) -> (r: Option<String>)
    ensures
        r.deep_view() == heading(line@),
{
    match strip_prefix(trim(line).as_str(), "/dev/") {
        Some(rest) => {
            let w = split_words(rest.as_str());
            assert(w.deep_view().len() == w@.len());
            if w.len() > 0 {
                assert(w.deep_view()[0] == w@[0]@);
                Some(w[0].clone())
            } else {
                Some(String::new())
            }
        },
        None => None,
    }
}

fn read_model(fields: &Vec<String>) -> (r: String)
    requires
        fields@.len() > 0,
    ensures
        r@ == row_model(fields.deep_view()),
{
    assert(fields.deep_view().len() == fields@.len());
    assert(fields.deep_view()[0] == fields@[0]@);
    let end: usize = if fields.len() >= 3 {
        fields.len() - 3
    } else {
        0
    };
    if end > 1 {
        let s = join_text(fields, 1, end, " ");
        if !s.as_str().is_empty() {
            return s;
        }
    }
    fields[0].clone()
}

fn read_row(line: &str, disk: &str) -> (r: Option<Row>)
    ensures
        r.deep_view() == row(line@, disk@),
{
    match split_once(trim(line).as_str(), ":") {
        None => None,
        Some((index, rest)) => {
            if parse_unsigned(trim(index.as_str()).as_str(), 10, u32::MAX as u64).is_none() {
                return None;
            }
            let f = split_words(rest.as_str());
            let n: usize = f.len();
            let ghost all = f.deep_view();
            assert(all.len() == n);
            if n == 0 {
                return None;
            }
            assert(all[n - 1] == f@[n - 1]@);
            if !starts_with(f[n - 1].as_str(), "disk") {
                return None;
            }
            let kind = if same(f[n - 1].as_str(), disk) {
                Kind::Disk
            } else {
                Kind::Partition
            };
            let size = if n >= 3 {
                assert(all[n - 3] == f@[n - 3]@ && all[n - 2] == f@[n - 2]@);
                Some((f[n - 3].clone(), f[n - 2].clone()))
            } else {
                None
            };
            Some(Row { ident: f[n - 1].clone(), kind, model: read_model(&f), size })
        },
    }
}

/// Reads the list. Its columnar output has been stable for many releases.
pub fn read_rows(text: &str) -> (r: Vec<Row>)
    ensures
        r.deep_view() == rows(lines(text@)),
{
    let list = split_lines(text);
    let ghost all = list.deep_view();
    let mut out: Vec<Row> = Vec::new();
    let mut disk = String::new();
    let mut i: usize = 0;
    assert(out.deep_view() =~= rows(all.take(0)));
    assert(disk@ =~= current_disk(all.take(0)));
    while i < list.len()
        invariant
            i <= list@.len(),
            all == list.deep_view(),
            all.len() == list@.len(),
            out.deep_view() == rows(all.take(i as int)),
            disk@ == current_disk(all.take(i as int)),
        decreases list@.len() - i,
    {
        let ghost done = out.deep_view();
        assert(all.take(i + 1).drop_last() =~= all.take(i as int));
        assert(all.take(i + 1).last() == list@[i as int]@);
        match read_heading(list[i].as_str()) {
            Some(d) => {
                disk = d;
            },
            None => {
                if let Some(r) = read_row(list[i].as_str(), disk.as_str()) {
                    out.push(r);
                    assert(out.deep_view() =~= done.push(r@));
                }
            },
        }
        i += 1;
    }
    assert(all.take(i as int) =~= all);
    out
}

/// Bytes of a unit.
pub open spec fn unit_bytes(unit: Seq<char>) -> Option<nat> {
    if unit == "B"@ {
        Some(1)
    } else if unit == "KB"@ {
        Some(1_000)
    } else if unit == "MB"@ {
        Some(1_000_000)
    } else if unit == "GB"@ {
        Some(1_000_000_000)
    } else if unit == "TB"@ {
        Some(1_000_000_000_000)
    } else if unit == "PB"@ {
        Some(1_000_000_000_000_000)
    } else {
        None
    }
}

/// Bytes of a size that is printed as a number and a unit; none where the number
/// or the unit cannot be read.
pub open spec fn printed_size(number: Option<Dyadic>, unit: Seq<char>) -> Option<nat> {
    match (number, unit_bytes(unit)) {
        (Some(n), Some(bytes)) => Some(whole_part(product(n, rounded(bytes, 1)))),
        _ => None,
    }
}

/// The number of a size without the star that marks the row of a whole disk.
pub fn size_number(value: &str) -> (r: String)
    ensures
        r@ == without_leading(value@, '*'),
{
    strip_leading(value, '*')
}

/// Bytes of a size that is printed as a number and a unit.
pub fn parse_diskutil_size(number: Option<Double>, unit: &str) -> (r: Option<u64>)
    ensures
        match r {
            Some(size) => number is Some && printed_size(Some(number->0@), unit@) == Some(size as nat),
            None => number is None || printed_size(Some(number->0@), unit@) is None,
        },
{
    let n = match number {
        Some(n) => n,
        None => {
            return None;
        },
    };
    let bytes: u64 = if same(unit, "B") {
        1
    } else if same(unit, "KB") {
        1_000
    } else if same(unit, "MB") {
        1_000_000
    } else if same(unit, "GB") {
        1_000_000_000
    } else if same(unit, "TB") {
        1_000_000_000_000
    } else if same(unit, "PB") {
        1_000_000_000_000_000
    } else {
        return None;
    };
    Some(n.floor_times(Double::from_u64(bytes)))
}

/// The device of a row.
pub open spec fn row_device(r: RowView, size: u64, table: Seq<EntryView>) -> DeviceView {
    DeviceView {
        name: r.ident,
        path: join("/dev"@, r.ident),
        kind: r.kind,
        size,
        model: r.model,
        rotational: None,
        removable: false,
        mount: looked_up(join("/dev"@, r.ident), table),
        mount_inherited: false,
    }
}

/// The devices of some rows, given their sizes in bytes; one without a readable
/// size has none.
pub fn macos_devices(list: &Vec<Row>, sizes: &Vec<Option<u64>>, table: &Vec<Entry>) -> (r: Vec<Device>)
    requires
        sizes@.len() == list@.len(),
    ensures
        r.deep_view() == Seq::new(
            list@.len(),
            |i: int| row_device(list@[i]@, sizes@[i].unwrap_or(0), table.deep_view()),
        ),
{
    let mut out: Vec<Device> = Vec::new();
    let mut i: usize = 0;
    while i < list.len()
        invariant
            i <= list@.len() == sizes@.len(),
            out@.len() == i,
            forall|k: int|
                0 <= k < i ==> (#[trigger] out@[k])@ == row_device(
                    list@[k]@,
                    sizes@[k].unwrap_or(0),
                    table.deep_view(),
                ),
        decreases list@.len() - i,
    {
        let row = &list[i];
        let size: u64 = match sizes[i] {
            Some(n) => n,
            None => 0,
        };
        let path = path_join("/dev", row.ident.as_str());
        let mount = lookup_mount(path.as_str(), table);
        out.push(
            Device {
                name: row.ident.clone(),
                path,
                kind: row.kind,
                size,
                model: row.model.clone(),
                rotational: None,
                removable: false,
                mount,
                mount_inherited: false,
            },
        );
        i += 1;
    }
    assert(out.deep_view() =~= Seq::new(
        list@.len(),
        |i: int| row_device(list@[i]@, sizes@[i].unwrap_or(0), table.deep_view()),
    ));
    out
}

/// Each unit is a thousand of the one before it, from the byte to the petabyte,
/// and nothing else is a unit.
pub proof fn law_units_are_a_thousand_apart(unit: Seq<char>)
    ensures
        unit_bytes("B"@) == Some(1nat),
        unit_bytes("KB"@) == Some(1000 * unit_bytes("B"@)->0),
        unit_bytes("MB"@) == Some(1000 * unit_bytes("KB"@)->0),
        unit_bytes("GB"@) == Some(1000 * unit_bytes("MB"@)->0),
        unit_bytes("TB"@) == Some(1000 * unit_bytes("GB"@)->0),
        unit_bytes("PB"@) == Some(1000 * unit_bytes("TB"@)->0),
        unit_bytes(unit) is Some ==> unit.len() == 1 || unit.len() == 2,
{
    reveal_strlit("B");
    reveal_strlit("KB");
    reveal_strlit("MB");
    reveal_strlit("GB");
    reveal_strlit("TB");
    reveal_strlit("PB");
    assert("B"@.len() == 1 && "KB"@.len() == 2 && "KB"@[0] == 'K' && "MB"@.len() == 2 && "MB"@[0] == 'M');
    assert("GB"@.len() == 2 && "GB"@[0] == 'G' && "TB"@.len() == 2 && "TB"@[0] == 'T');
    assert("PB"@.len() == 2 && "PB"@[0] == 'P');
}

/// A size that is printed as a number and a unit is the number times the bytes of
/// the unit, to within the precision of a double, and rounded down to a byte.
pub proof fn law_printed_sizes_are_numbers_of_units(n: Dyadic, unit: Seq<char>)
    requires
        unit_bytes(unit) is Some,
    ensures
        printed_size(Some(n), unit) is Some,
        printed_size(None, unit) is None,
        exists|x: Dyadic|
            {
                &&& printed_size(Some(n), unit) == Some(#[trigger] whole_part(x))
                &&& close(value_of(x), value_of(n) * (unit_bytes(unit)->0 as real), 3)
            },
{
    let bytes = unit_bytes(unit)->0;
    let m = rounded(bytes, 1);
    let x = product(n, m);
    lemma_count_is_close(bytes);
    law_products_are_close(n, m);
    lemma_value_sign(n);
    lemma_value_sign(m);
    let v = value_of(n);
    let b = bytes as real;
    lemma_close_scales(value_of(m), b, 1, v);
    lemma_swap(b, v);
    lemma_swap(value_of(m), v);
    lemma_times(0real, v, b);
    lemma_nothing(b);
    lemma_close_follows(v * b, v * value_of(m), value_of(x), 1, 1);
    assert(printed_size(Some(n), unit) == Some(whole_part(x)));
}

/// A row is the whole disk just where it bears the name of the disk under whose
/// heading it stands; any other is a partition. Its device is the one of its
/// name under `/dev`.
pub proof fn law_rows_belong_to_their_disk(line: Seq<char>, disk: Seq<char>, size: u64, table: Seq<EntryView>)
    requires
        row(line, disk) is Some,
    ensures
        ({
            let r = row(line, disk)->0;
            let d = row_device(r, size, table);
            &&& r.kind == Kind::Disk <==> r.ident == disk
            &&& "disk"@.is_prefix_of(r.ident)
            &&& d.name == r.ident && d.kind == r.kind && d.size == size && d.model == r.model
            &&& d.path == join("/dev"@, r.ident)
            &&& d.mount == looked_up(d.path, table) && !d.mount_inherited
        }),
{
}

/// A row stands under the last heading before it: a heading begins a disk, and
/// what follows it belongs to that until the next one.
pub proof fn law_headings_begin_a_disk(all: Seq<Seq<char>>, line: Seq<char>)
    ensures
        heading(line) is Some ==> current_disk(all.push(line)) == heading(line)->0 && rows(all.push(line))
            == rows(all),
        heading(line) is None ==> current_disk(all.push(line)) == current_disk(all),
        heading(line) is None && row(line, current_disk(all)) is Some ==> rows(all.push(line)) == rows(all).push(
            row(line, current_disk(all))->0,
        ),
        heading(line) is None && row(line, current_disk(all)) is None ==> rows(all.push(line)) == rows(all),
{
    assert(all.push(line).drop_last() =~= all);
    assert(all.push(line).last() == line);
}

/// A text with one more word behind it.
pub open spec fn and_word(s: Seq<char>, w: Seq<char>) -> Seq<char> {
    s.push(' ') + w
}

proof fn lemma_and_word(s: Seq<char>, w: Seq<char>)
    requires
        is_word(w),
    ensures
        words(and_word(s, w)) == words(s).push(w),
        and_word(s, w).last() == w.last(),
        !space(w.last()),
{
    assert(space(' '));
    law_words_are_told_apart_by_space(s, ' ', w);
    assert(!space(w[w.len() - 1]));
}

/// A row is read as it is printed: behind its number the type, the name of the
/// volume where it has one, the size as a number and a unit, and the device.
/// The name is what is shown of it, or the type where there is none.
#[verifier::rlimit(60)]
pub proof fn law_rows_read_back(
    index: nat,
    kind: Seq<char>,
    name: Seq<char>,
    number: Seq<char>,
    unit: Seq<char>,
    ident: Seq<char>,
    disk: Seq<char>,
)
    requires
        index <= u32::MAX,
        is_word(kind) && is_word(name) && is_word(number) && is_word(unit) && is_word(ident),
        "disk"@.is_prefix_of(ident),
    ensures
        ({
            let named = and_word(and_word(and_word(and_word(and_word(Seq::empty(), kind), name), number), unit), ident);
            let r = row(decimal(index) + ":"@ + named, disk);
            &&& r is Some
            &&& r->0.ident == ident && r->0.model == name && r->0.size == Some((number, unit))
        }),
        ({
            let plain = and_word(and_word(and_word(and_word(Seq::empty(), kind), number), unit), ident);
            let r = row(decimal(index) + ":"@ + plain, disk);
            &&& r is Some
            &&& r->0.ident == ident && r->0.model == kind && r->0.size == Some((number, unit))
        }),
{
    let a = and_word(Seq::empty(), kind);
    let b = and_word(a, name);
    let c = and_word(b, number);
    let d = and_word(c, unit);
    let named = and_word(d, ident);
    lemma_and_word(Seq::empty(), kind);
    lemma_and_word(a, name);
    lemma_and_word(b, number);
    lemma_and_word(c, unit);
    lemma_and_word(d, ident);
    lemma_row_text(index, named);
    let f = words(named);
    assert(f =~= seq![kind, name, number, unit, ident]);
    assert(f.subrange(1, 2) =~= seq![name]);
    assert(joined(seq![name], " "@) == name);
    let e = and_word(a, number);
    let g = and_word(e, unit);
    let plain = and_word(g, ident);
    lemma_and_word(a, number);
    lemma_and_word(e, unit);
    lemma_and_word(g, ident);
    lemma_row_text(index, plain);
    let h = words(plain);
    assert(h =~= seq![kind, number, unit, ident]);
}

proof fn lemma_row_text(index: nat, rest: Seq<char>)
    requires
        index <= u32::MAX,
        rest.len() > 0,
        !space(rest.last()),
    ensures
        cut_first(trimmed(decimal(index) + ":"@ + rest), ":"@) == Some((decimal(index), rest)),
        unsigned_within(trimmed(decimal(index)), 10, u32::MAX as nat) == Some(index),
{
    reveal_strlit(":");
    let n = decimal(index);
    let colon = ":"@;
    let line = n + colon + rest;
    law_decimals_read_back(index);
    assert(is_digit(n[0], 10) && is_digit(n[n.len() - 1], 10));
    law_trimmed_text_stays(n);
    assert(line[0] == n[0] && line.last() == rest.last());
    law_trimmed_text_stays(line);
    assert forall|j: int| 0 <= j < n.len() implies !#[trigger] occurs(line, colon, j) by {
        if occurs(line, colon, j) {
            assert(line.subrange(j, j + 1)[0] == colon[0]);
            assert(line[j] == n[j]);
            assert(is_digit(n[j], 10));
            assert(':' as u32 == 58);
        }
    }
    lemma_cut_there(n, colon, rest);
}

/// A name of several words is shown whole.
#[verifier::rlimit(60)]
pub proof fn law_long_names_are_shown_whole(
    index: nat,
    kind: Seq<char>,
    name: Seq<char>,
    more: Seq<char>,
    number: Seq<char>,
    unit: Seq<char>,
    ident: Seq<char>,
    disk: Seq<char>,
)
    requires
        index <= u32::MAX,
        is_word(kind) && is_word(name) && is_word(more) && is_word(number) && is_word(unit) && is_word(ident),
        "disk"@.is_prefix_of(ident),
    ensures
        ({
            let rest = and_word(
                and_word(and_word(and_word(and_word(and_word(Seq::empty(), kind), name), more), number), unit),
                ident,
            );
            let r = row(decimal(index) + ":"@ + rest, disk);
            &&& r is Some
            &&& r->0.ident == ident && r->0.model == name + " "@ + more && r->0.size == Some((number, unit))
        }),
{
    let a = and_word(Seq::empty(), kind);
    let b = and_word(a, name);
    let c = and_word(b, more);
    let d = and_word(c, number);
    let e = and_word(d, unit);
    let rest = and_word(e, ident);
    lemma_and_word(Seq::empty(), kind);
    lemma_and_word(a, name);
    lemma_and_word(b, more);
    lemma_and_word(c, number);
    lemma_and_word(d, unit);
    lemma_and_word(e, ident);
    lemma_row_text(index, rest);
    let f = words(rest);
    assert(f =~= seq![kind, name, more, number, unit, ident]);
    assert(f.subrange(1, 3) =~= seq![name, more]);
    reveal_with_fuel(joined, 2);
    assert(seq![name, more].drop_last() =~= seq![name]);
    assert(joined(seq![name, more], " "@) == name + " "@ + more);
}

/// A heading names its disk by the first word of its path below `/dev`.
pub proof fn law_headings_name_their_disk(disk: Seq<char>, rest: Seq<char>)
    requires
        is_word(disk),
        rest.len() > 0 ==> !space(rest.last()),
    ensures
        heading("/dev/"@ + disk) == Some(disk),
        rest.len() > 0 ==> heading("/dev/"@ + (disk.push(' ') + rest)) == Some(disk),
{
    reveal_strlit("/dev/");
    let dev = "/dev/"@;
    assert(dev.len() == 5 && dev[0] == '/');
    assert(space(' ') && !space('/'));
    assert(!space(disk[disk.len() - 1]));
    law_words_are_told_apart_by_space(Seq::empty(), ' ', disk);
    let one = dev + disk;
    assert(one.last() == disk[disk.len() - 1] && one[0] == '/');
    law_trimmed_text_stays(one);
    assert(one.subrange(0, 5) =~= dev);
    assert(one.skip(5) =~= disk);
    if rest.len() > 0 {
        let tail = disk.push(' ') + rest;
        let two = dev + tail;
        assert(two.last() == rest.last() && two[0] == '/');
        law_trimmed_text_stays(two);
        assert(two.subrange(0, 5) =~= dev);
        assert(two.skip(5) =~= tail);
        law_words_of_two_texts(disk, ' ', rest);
        assert(words(tail)[0] == disk);
    }
}

} // verus!
