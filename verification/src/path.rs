//! Unix paths as text: their components, parents and file names.

use vstd::prelude::*;

use crate::text::{
    chars, cut_last, fields, last_from, law_text_is_cut_at_the_last, occurs, split, text,
};

verus! {

/// Whether a field between slashes is a component: it is neither empty nor a
/// dot, which stands for the directory it is in.
pub open spec fn counts(field: Seq<char>) -> bool {
    field.len() > 0 && field != seq!['.']
}

/// The components of a path: the root where the path begins with a slash, and
/// every field that counts. A dot counts at the start of a relative path.
pub open spec fn components(path: Seq<char>) -> Seq<Seq<char>> {
    let all = fields(path, '/');
    let body = all.filter(|f: Seq<char>| counts(f));
    if path.len() > 0 && path[0] == '/' {
        seq![seq!['/']] + body
    } else if all[0] == seq!['.'] {
        seq![seq!['.']] + body
    } else {
        body
    }
}

fn is_dot(s: &String) -> (r: bool)
    ensures
        r == (s@ == seq!['.']),
{
    let v = chars(s.as_str());
    if v.len() == 1 && v[0] == '.' {
        assert(v@ =~= seq!['.']);
        true
    } else {
        assert(v@.len() == 1 ==> v@[0] != '.');
        false
    }
}

/// The components of a path.
pub fn path_components(path: &str) -> (r: Vec<String>)
    ensures
        r.deep_view() == components(path@),
{
    let all = split(path, '/');
    let v = chars(path);
    let mut out: Vec<String> = Vec::new();
    assert(all.deep_view()[0] == all@[0]@);
    let ghost first: Seq<Seq<char>> = Seq::empty();
    if v.len() > 0 && v[0] == '/' {
        let mut root = String::new();
        root.push('/');
        assert(root@ =~= seq!['/']);
        out.push(root);
        proof {
            first = seq![seq!['/']];
        }
    } else if is_dot(&all[0]) {
        out.push(all[0].clone());
        proof {
            first = seq![seq!['.']];
        }
    }
    assert(out.deep_view() =~= first);
    let ghost pred = |f: Seq<char>| counts(f);
    let mut i: usize = 0;
    assert(all.deep_view().take(0).filter(pred) =~= Seq::<Seq<char>>::empty()) by {
        reveal(Seq::filter);
    }
    assert(out.deep_view() =~= first + all.deep_view().take(0).filter(pred));
    while i < all.len()
        invariant
            i <= all@.len(),
            all.deep_view() == fields(path@, '/'),
            pred == (|f: Seq<char>| counts(f)),
            out.deep_view() == first + all.deep_view().take(i as int).filter(pred),
        decreases all@.len() - i,
    {
        let ghost before = out.deep_view();
        proof {
            assert(all.deep_view()[i as int] == all@[i as int]@);
            assert(all.deep_view().take(i + 1) =~= all.deep_view().take(i as int).push(all@[i as int]@));
            all.deep_view().take(i as int).lemma_filter_push(all@[i as int]@, pred);
        }
        if !all[i].as_str().is_empty() && !is_dot(&all[i]) {
            out.push(all[i].clone());
            assert(out.deep_view() =~= before.push(all@[i as int]@));
            assert(out.deep_view() =~= first + all.deep_view().take(i + 1).filter(pred));
        }
        i += 1;
    }
    assert(all.deep_view().take(i as int) =~= all.deep_view());
    assert(first.len() == 0 ==> first + all.deep_view().filter(pred) =~= all.deep_view().filter(pred));
    out
}

/// Whether two paths have the same components.
pub fn same_path(a: &str, b: &str) -> (r: bool)
    ensures
        r == (components(a@) == components(b@)),
{
    let x = path_components(a);
    let y = path_components(b);
    assert(x.deep_view().len() == x@.len() && y.deep_view().len() == y@.len());
    if x.len() != y.len() {
        return false;
    }
    let mut i: usize = 0;
    while i < x.len()
        invariant
            i <= x@.len() == y@.len(),
            x.deep_view() == components(a@),
            y.deep_view() == components(b@),
            x.deep_view().len() == x@.len(),
            y.deep_view().len() == y@.len(),
            forall|j: int| 0 <= j < i ==> x.deep_view()[j] == y.deep_view()[j],
        decreases x@.len() - i,
    {
        assert(x.deep_view()[i as int] == x@[i as int]@ && y.deep_view()[i as int] == y@[i as int]@);
        if x[i] != y[i] {
            return false;
        }
        i += 1;
    }
    assert(x.deep_view() =~= y.deep_view());
    true
}

/// The path without the slashes and dots behind its last component.
pub open spec fn trimmed_path(path: Seq<char>) -> Seq<char>
    decreases path.len(),
{
    if path.len() <= 1 {
        path
    } else if path.last() == '/' || (path.last() == '.' && path[path.len() - 2] == '/') {
        trimmed_path(path.drop_last())
    } else {
        path
    }
}

/// The part behind the last slash.
pub open spec fn last_part(path: Seq<char>) -> Seq<char> {
    match cut_last(path, seq!['/']) {
        Some((_, tail)) => tail,
        None => path,
    }
}

/// The last component, where it is a name.
pub open spec fn file_name(path: Seq<char>) -> Option<Seq<char>> {
    let name = last_part(trimmed_path(path));
    if name.len() == 0 || name == seq!['.'] || name == seq!['.', '.'] {
        None
    } else {
        Some(name)
    }
}

/// The path without its last component; none of the root or an empty path.
pub open spec fn parent(path: Seq<char>) -> Option<Seq<char>> {
    let whole = trimmed_path(path);
    if whole.len() == 0 || whole == seq!['/'] {
        None
    } else {
        match cut_last(whole, seq!['/']) {
            Some((head, _)) => Some(trimmed_path(head.push('/'))),
            None => Some(Seq::empty()),
        }
    }
}

/// A path below a directory. An absolute path is left as it is.
pub open spec fn join(base: Seq<char>, path: Seq<char>) -> Seq<char> {
    if path.len() > 0 && path[0] == '/' {
        path
    } else if base.len() == 0 || base.last() == '/' {
        base + path
    } else {
        base.push('/') + path
    }
}

/// The path with another name in place of its file name, or below it where it
/// has none.
pub open spec fn with_file_name(path: Seq<char>, name: Seq<char>) -> Seq<char> {
    if file_name(path) is Some {
        join(parent(path).unwrap_or(Seq::empty()), name)
    } else {
        join(path, name)
    }
}

/// How many of the first `to` characters the trimmed path keeps.
fn trimmed_end(v: &Vec<char>, to: usize) -> (r: usize)
    requires
        to <= v@.len(),
    ensures
        r <= to,
        v@.take(r as int) == trimmed_path(v@.take(to as int)),
{
    let mut n: usize = to;
    while n > 1 && (v[n - 1] == '/' || (v[n - 1] == '.' && v[n - 2] == '/'))
        invariant
            n <= to <= v@.len(),
            trimmed_path(v@.take(to as int)) == trimmed_path(v@.take(n as int)),
        decreases n,
    {
        assert(v@.take(n as int).drop_last() =~= v@.take(n - 1));
        n -= 1;
    }
    n
}

/// Where the part behind the last slash of the first `to` characters begins.
fn part_start(v: &Vec<char>, to: usize) -> (r: usize)
    requires
        to <= v@.len(),
    ensures
        r <= to,
        match cut_last(v@.take(to as int), seq!['/']) {
            Some((head, tail)) => {
                &&& r >= 1
                &&& head == v@.take(r - 1)
                &&& v@[r - 1] == '/'
                &&& tail == v@.subrange(r as int, to as int)
            },
            None => r == 0,
        },
{
    let ghost s = v@.take(to as int);
    let mut i: usize = to;
    while i > 0
        invariant
            i <= to <= v@.len(),
            s == v@.take(to as int),
            last_from(s, seq!['/'], s.len() - 1) == last_from(s, seq!['/'], i - 1),
        decreases i,
    {
        assert(s.subrange(i - 1, i as int) =~= seq![s[i - 1]]);
        if v[i - 1] == '/' {
            assert(occurs(s, seq!['/'], i - 1));
            assert(s.take(i - 1) =~= v@.take(i - 1));
            assert(s.skip(i as int) =~= v@.subrange(i as int, to as int));
            return i;
        }
        assert(!occurs(s, seq!['/'], i - 1)) by {
            assert(seq![s[i - 1]][0] != seq!['/'][0]);
        }
        i -= 1;
    }
    0
}

/// The last component, where it is a name.
pub fn path_file_name(path: &str) -> (r: Option<String>)
    ensures
        r.deep_view() == file_name(path@),
{
    let v = chars(path);
    assert(v@.take(v@.len() as int) =~= path@);
    let end: usize = trimmed_end(&v, v.len());
    let start: usize = part_start(&v, end);
    let name = text(&v, start, end);
    assert(v@.subrange(0, end as int) =~= v@.take(end as int));
    assert(name@ == last_part(trimmed_path(path@)));
    let n: usize = end - start;
    if n == 0 {
        return None;
    }
    if n == 1 && v[start] == '.' {
        assert(name@ =~= seq!['.']);
        return None;
    }
    if n == 2 && v[start] == '.' && v[start + 1] == '.' {
        assert(name@ =~= seq!['.', '.']);
        return None;
    }
    assert(name@.len() == 1 ==> name@[0] != '.');
    assert(name@.len() == 2 ==> name@[0] != '.' || name@[1] != '.');
    Some(name)
}

/// The path without its last component; none of the root or an empty path.
pub fn path_parent(path: &str) -> (r: Option<String>)
    ensures
        r.deep_view() == parent(path@),
{
    let v = chars(path);
    assert(v@.take(v@.len() as int) =~= path@);
    let end: usize = trimmed_end(&v, v.len());
    if end == 0 {
        return None;
    }
    if end == 1 && v[0] == '/' {
        assert(v@.take(1) =~= seq!['/']);
        return None;
    }
    assert(trimmed_path(path@) != seq!['/']) by {
        assert(end == 1 ==> v@.take(1)[0] != '/');
    }
    let start: usize = part_start(&v, end);
    let cut: usize = trimmed_end(&v, start);
    proof {
        if start > 0 {
            assert(v@.take(start as int) =~= v@.take(start - 1).push('/'));
        } else {
            assert(v@.take(0) =~= Seq::<char>::empty());
        }
        assert(v@.subrange(0, cut as int) =~= v@.take(cut as int));
    }
    Some(text(&v, 0, cut))
}

/// A path below a directory. An absolute path is left as it is.
pub fn path_join(base: &str, path: &str) -> (r: String)
    ensures
        r@ == join(base@, path@),
{
    let v = chars(path);
    if v.len() > 0 && v[0] == '/' {
        return path.to_string();
    }
    let b = chars(base);
    let mut out = base.to_string();
    if b.len() > 0 && b[b.len() - 1] != '/' {
        out.push('/');
    }
    out.append(path);
    out
}

/// A name behind a slash is a field of its own.
proof fn lemma_field_behind(head: Seq<char>, name: Seq<char>)
    requires
        !name.contains('/'),
    ensures
        fields(head.push('/') + name, '/') == fields(head, '/').push(name),
    decreases name.len(),
{
    let s = head.push('/') + name;
    if name.len() == 0 {
        assert(s =~= head.push('/'));
        assert(s.drop_last() =~= head);
        assert(name =~= Seq::empty());
    } else {
        let init = name.drop_last();
        assert(name[name.len() - 1] != '/');
        assert(!init.contains('/')) by {
            assert forall|i: int| 0 <= i < init.len() implies init[i] != '/' by {
                assert(name[i] != '/');
            }
        }
        lemma_field_behind(head, init);
        assert(s.drop_last() =~= head.push('/') + init);
        assert(fields(head, '/').push(init).drop_last() =~= fields(head, '/'));
        assert(init.push(name.last()) =~= name);
    }
}

/// A name is the one field of itself.
proof fn lemma_field_alone(name: Seq<char>)
    requires
        !name.contains('/'),
    ensures
        fields(name, '/') == seq![name],
    decreases name.len(),
{
    if name.len() == 0 {
        assert(name =~= Seq::empty());
    } else {
        let init = name.drop_last();
        assert(name[name.len() - 1] != '/');
        assert(!init.contains('/')) by {
            assert forall|i: int| 0 <= i < init.len() implies init[i] != '/' by {
                assert(name[i] != '/');
            }
        }
        lemma_field_alone(init);
        assert(init.push(name.last()) =~= name);
        assert(fields(name, '/') =~= seq![name]);
    }
}

proof fn lemma_some_field(s: Seq<char>)
    ensures
        fields(s, '/').len() >= 1,
    decreases s.len(),
{
    if s.len() > 0 {
        lemma_some_field(s.drop_last());
    }
}

/// A name below a directory lies directly in it: it is one component more than
/// the directory has.
#[verifier::rlimit(60)]
pub proof fn law_joined_name_lies_in_the_directory(base: Seq<char>, name: Seq<char>)
    requires
        counts(name),
        !name.contains('/'),
    ensures
        components(join(base, name)) == components(base).push(name),
{
    let pred = |f: Seq<char>| counts(f);
    let whole = join(base, name);
    assert(name[0] != '/');
    lemma_some_field(base);
    let all = fields(base, '/');
    if base.len() == 0 {
        assert(whole =~= name);
        lemma_field_alone(name);
        assert(all =~= Seq::<Seq<char>>::empty().push(Seq::empty()));
        assert(seq![name] =~= Seq::<Seq<char>>::empty().push(name));
        Seq::<Seq<char>>::empty().lemma_filter_push(Seq::empty(), pred);
        Seq::<Seq<char>>::empty().lemma_filter_push(name, pred);
        assert(Seq::<Seq<char>>::empty().filter(pred) =~= Seq::empty()) by {
            reveal(Seq::filter);
        }
        assert(all[0].len() != seq!['.'].len());
    } else if base.last() == '/' {
        let head = base.drop_last();
        assert(head.push('/') =~= base);
        lemma_field_behind(head, name);
        lemma_some_field(head);
        fields(head, '/').lemma_filter_push(Seq::empty(), pred);
        fields(head, '/').lemma_filter_push(name, pred);
        assert(whole[0] == base[0]);
    } else {
        lemma_field_behind(base, name);
        all.lemma_filter_push(name, pred);
        assert(whole[0] == base[0]);
    }
    assert(components(whole) =~= components(base).push(name));
}

/// The path with another name in place of its file name, or below it where it
/// has none.
pub fn path_with_file_name(path: &str, name: &str) -> (r: String)
    ensures
        r@ == with_file_name(path@, name@),
{
    proof {
        reveal_strlit("");
        assert(""@ =~= Seq::<char>::empty());
    }
    match path_file_name(path) {
        Some(_) => match path_parent(path) {
            Some(p) => path_join(p.as_str(), name),
            None => path_join("", name),
        },
        None => path_join(path, name),
    }
}

proof fn lemma_last_slash(head: Seq<char>, name: Seq<char>)
    requires
        !name.contains('/'),
    ensures
        cut_last(head.push('/') + name, seq!['/']) == Some((head, name)),
{
    let s = head.push('/') + name;
    let slash = seq!['/'];
    let n = head.len() as int;
    law_text_is_cut_at_the_last(s, slash);
    assert(s.subrange(n, n + 1) =~= slash);
    assert(occurs(s, slash, n));
    let (x, y) = cut_last(s, slash)->0;
    assert(x.len() >= n);
    assert(s[x.len() as int] == '/') by {
        assert((x + slash + y)[x.len() as int] == '/');
    }
    assert(x.len() == n) by {
        if x.len() > n {
            assert(s[x.len() as int] == name[x.len() - n - 1]);
            assert(name.contains(name[x.len() - n - 1]));
        }
    }
    assert((x + slash + y).take(n) =~= x);
    assert(s.take(n) =~= head);
    assert((x + slash + y).skip(n + 1) =~= y);
    assert(s.skip(n + 1) =~= name);
}

proof fn lemma_no_slash(name: Seq<char>)
    requires
        !name.contains('/'),
    ensures
        cut_last(name, seq!['/']) is None,
{
    law_text_is_cut_at_the_last(name, seq!['/']);
    if let Some((x, y)) = cut_last(name, seq!['/']) {
        assert((x + seq!['/'] + y)[x.len() as int] == '/');
        assert(name[x.len() as int] == '/');
    }
}

/// The file name of a name below a directory is that name, and its parent is the
/// directory.
#[verifier::rlimit(60)]
pub proof fn law_joined_names_come_apart_again(base: Seq<char>, name: Seq<char>)
    requires
        counts(name),
        name != seq!['.', '.'],
        !name.contains('/'),
    ensures
        file_name(join(base, name)) == Some(name),
        parent(join(base, name)) == Some(trimmed_path(base)),
{
    let whole = join(base, name);
    assert(name[0] != '/' && name[name.len() - 1] != '/');
    if base.len() == 0 {
        assert(whole =~= name);
        lemma_name_stays(Seq::empty(), name);
        assert(Seq::<char>::empty() + name =~= name);
        lemma_no_slash(name);
        assert(trimmed_path(base) =~= Seq::empty());
        assert(name != seq!['/']) by {
            assert(seq!['/'][0] == '/');
        }
    } else {
        let head = if base.last() == '/' {
            base.drop_last()
        } else {
            base
        };
        assert(whole =~= head.push('/') + name);
        lemma_name_stays(head.push('/'), name);
        lemma_last_slash(head, name);
        assert(whole.len() >= 2);
        assert(whole != seq!['/']) by {
            assert(seq!['/'].len() == 1);
        }
        if base.last() == '/' {
            assert(head.push('/') =~= base);
        } else {
            assert(head.push('/').drop_last() =~= base);
        }
    }
}

proof fn lemma_name_stays(head: Seq<char>, name: Seq<char>)
    requires
        counts(name),
        !name.contains('/'),
        head.len() > 0 ==> head.last() == '/',
    ensures
        trimmed_path(head + name) == head + name,
{
    let s = head + name;
    assert(name[name.len() - 1] != '/');
    assert(s.last() == name.last());
    if name.len() == 1 {
        assert(name.last() != '.') by {
            if name.last() == '.' {
                assert(name =~= seq!['.']);
            }
        }
    } else {
        assert(s[s.len() - 2] == name[name.len() - 2]);
        assert(name[name.len() - 2] != '/');
    }
}

/// A slash behind a path, or one too many in it, changes nothing of what it leads
/// to.
pub proof fn law_extra_slashes_change_nothing(base: Seq<char>, name: Seq<char>)
    requires
        base.len() > 0,
        counts(name),
        !name.contains('/'),
    ensures
        components(base.push('/')) == components(base),
        components(join(base.push('/'), name)) == components(join(base, name)),
{
    let pred = |f: Seq<char>| counts(f);
    lemma_some_field(base);
    let all = fields(base, '/');
    assert(base.push('/').drop_last() =~= base);
    assert(fields(base.push('/'), '/') == all.push(Seq::empty()));
    all.lemma_filter_push(Seq::empty(), pred);
    assert(base.push('/')[0] == base[0]);
    law_joined_name_lies_in_the_directory(base, name);
    law_joined_name_lies_in_the_directory(base.push('/'), name);
}

} // verus!
