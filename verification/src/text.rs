//! Text primitives: splitting, trimming, padding and ordering, all stated over
//! sequences of characters.

use vstd::prelude::*;

verus! {

/// `String::push` appends one character at the end of the string.
pub assume_specification[ String::push ](s: &mut String, c: char)
    ensures
        final(s)@ == old(s)@.push(c),
;

/// The characters of a string, in order.
pub fn chars(s: &str) -> (r: Vec<char>)
    ensures
        r@ == s@,
{
    let mut out: Vec<char> = Vec::new();
    for c in it: s.chars()
        invariant
            out@ == s@.take(it.index()),
            it.seq() == s@,
    {
        out.push(c);
        proof {
            assert(s@.take(it.index() + 1) =~= s@.take(it.index()).push(s@[it.index()]));
        }
    }
    assert(s@.take(s@.len() as int) =~= s@);
    out
}

/// The string made of the characters `from..to` of `v`.
pub fn text(v: &Vec<char>, from: usize, to: usize) -> (r: String)
    requires
        from <= to <= v@.len(),
    ensures
        r@ == v@.subrange(from as int, to as int),
{
    let mut out = String::new();
    let mut i: usize = from;
    while i < to
        invariant
            from <= i <= to <= v@.len(),
            out@ == v@.subrange(from as int, i as int),
        decreases to - i,
    {
        out.push(v[i]);
        proof {
            assert(v@.subrange(from as int, i + 1) =~= v@.subrange(from as int, i as int).push(
                v@[i as int],
            ));
        }
        i += 1;
    }
    out
}

/// Whether two strings hold the same characters.
pub fn same(a: &str, b: &str) -> (r: bool)
    ensures
        r == (a@ == b@),
{
    a.to_string() == b.to_string()
}

/// Whether `prefix` begins `s`.
pub fn starts_with(s: &str, prefix: &str) -> (r: bool)
    ensures
        r == prefix@.is_prefix_of(s@),
{
    let a = chars(s);
    let p = chars(prefix);
    if p.len() > a.len() {
        return false;
    }
    let mut i: usize = 0;
    while i < p.len()
        invariant
            i <= p@.len() <= a@.len(),
            a@ == s@,
            p@ == prefix@,
            forall|j: int| 0 <= j < i ==> a@[j] == p@[j],
        decreases p@.len() - i,
    {
        if a[i] != p[i] {
            assert(s@[i as int] != prefix@[i as int]);
            assert(s@.subrange(0, prefix@.len() as int)[i as int] == s@[i as int]);
            return false;
        }
        i += 1;
    }
    assert(prefix@ =~= s@.subrange(0, prefix@.len() as int));
    true
}

/// The text behind a prefix, where it begins with that.
pub open spec fn behind(s: Seq<char>, prefix: Seq<char>) -> Option<Seq<char>> {
    if prefix.is_prefix_of(s) {
        Some(s.skip(prefix.len() as int))
    } else {
        None
    }
}

/// The text behind a prefix, where it begins with that.
pub fn strip_prefix(s: &str, prefix: &str) -> (r: Option<String>)
    ensures
        r.deep_view() == behind(s@, prefix@),
{
    if starts_with(s, prefix) {
        let v = chars(s);
        let n: usize = prefix.unicode_len();
        assert(s@.skip(n as int) =~= s@.subrange(n as int, s@.len() as int));
        Some(text(&v, n, v.len()))
    } else {
        None
    }
}

/// The code point of a character.
pub fn code_point(c: char) -> (r: u32)
    ensures
        r == c as int,
{
    c as u32
}

/// Strict lexicographic order of two texts by code point.
pub open spec fn before(a: Seq<char>, b: Seq<char>) -> bool
    decreases a.len(),
{
    if b.len() == 0 {
        false
    } else if a.len() == 0 {
        true
    } else if a[0] != b[0] {
        (a[0] as int) < (b[0] as int)
    } else {
        before(a.drop_first(), b.drop_first())
    }
}

/// The order of texts is strict and total, and what stands between two texts in
/// order comes after the first or before the second.
pub proof fn law_before_is_an_order(a: Seq<char>, b: Seq<char>, c: Seq<char>)
    ensures
        !(before(a, b) && before(b, a)),
        a != b ==> before(a, b) || before(b, a),
        before(a, c) ==> before(a, b) || before(b, c),
        before(a, b) && before(b, c) ==> before(a, c),
    decreases a.len() + b.len() + c.len(),
{
    if a.len() > 0 && b.len() > 0 {
        if a[0] == b[0] && a.drop_first() == b.drop_first() {
            assert(a =~= seq![a[0]] + a.drop_first());
            assert(b =~= seq![b[0]] + b.drop_first());
        }
        if c.len() > 0 {
            law_before_is_an_order(a.drop_first(), b.drop_first(), c.drop_first());
        } else {
            law_before_is_an_order(a.drop_first(), b.drop_first(), c);
        }
    } else if a.len() == 0 && b.len() == 0 {
        assert(a =~= b);
    }
}

/// Whether `a` comes strictly before `b`.
pub fn is_before(a: &str, b: &str) -> (r: bool)
    ensures
        r == before(a@, b@),
{
    let x = chars(a);
    let y = chars(b);
    let mut i: usize = 0;
    assert(a@.skip(0) =~= a@);
    assert(b@.skip(0) =~= b@);
    while i < x.len() && i < y.len()
        invariant
            i <= x@.len(),
            i <= y@.len(),
            x@ == a@,
            y@ == b@,
            before(a@, b@) == before(a@.skip(i as int), b@.skip(i as int)),
        decreases x@.len() - i,
    {
        if x[i] != y[i] {
            return code_point(x[i]) < code_point(y[i]);
        }
        proof {
            assert(a@.skip(i as int).drop_first() =~= a@.skip(i + 1));
            assert(b@.skip(i as int).drop_first() =~= b@.skip(i + 1));
        }
        i += 1;
    }
    i < y.len()
}

/// Characters with the Unicode `White_Space` property.
pub open spec fn space(c: char) -> bool {
    let u = c as u32;
    ||| 0x09 <= u <= 0x0D
    ||| u == 0x20
    ||| u == 0x85
    ||| u == 0xA0
    ||| u == 0x1680
    ||| 0x2000 <= u <= 0x200A
    ||| u == 0x2028
    ||| u == 0x2029
    ||| u == 0x202F
    ||| u == 0x205F
    ||| u == 0x3000
}

/// Whether a character is white space.
pub fn is_space(c: char) -> (r: bool)
    ensures
        r == space(c),
{
    let u: u32 = c as u32;
    (0x09 <= u && u <= 0x0D) || u == 0x20 || u == 0x85 || u == 0xA0 || u == 0x1680 || (0x2000 <= u
        && u <= 0x200A) || u == 0x2028 || u == 0x2029 || u == 0x202F || u == 0x205F || u == 0x3000
}

/// The text without its leading white space.
pub open spec fn trim_start(s: Seq<char>) -> Seq<char>
    decreases s.len(),
{
    if s.len() > 0 && space(s[0]) {
        trim_start(s.drop_first())
    } else {
        s
    }
}

/// The text without its trailing white space.
pub open spec fn trim_end(s: Seq<char>) -> Seq<char>
    decreases s.len(),
{
    if s.len() > 0 && space(s.last()) {
        trim_end(s.drop_last())
    } else {
        s
    }
}

/// The text without white space at either end.
pub open spec fn trimmed(s: Seq<char>) -> Seq<char> {
    trim_end(trim_start(s))
}

/// Strip white space from both ends.
pub fn trim(s: &str) -> (r: String)
    ensures
        r@ == trimmed(s@),
{
    let v = chars(s);
    let mut from: usize = 0;
    assert(s@.skip(0) =~= s@);
    while from < v.len() && is_space(v[from])
        invariant
            from <= v@.len(),
            v@ == s@,
            trim_start(s@) == trim_start(s@.skip(from as int)),
        decreases v@.len() - from,
    {
        proof {
            assert(s@.skip(from as int).drop_first() =~= s@.skip(from + 1));
        }
        from += 1;
    }
    assert(trim_start(s@) == s@.skip(from as int));
    let mut to: usize = v.len();
    assert(s@.skip(from as int) =~= s@.subrange(from as int, to as int));
    while to > from && is_space(v[to - 1])
        invariant
            from <= to <= v@.len(),
            v@ == s@,
            trimmed(s@) == trim_end(s@.subrange(from as int, to as int)),
        decreases to,
    {
        proof {
            assert(s@.subrange(from as int, to as int).drop_last() =~= s@.subrange(
                from as int,
                to - 1,
            ));
            assert(s@.subrange(from as int, to as int).last() == s@[to - 1]);
        }
        to -= 1;
    }
    proof {
        if to > from {
            assert(s@.subrange(from as int, to as int).last() == s@[to - 1]);
        }
    }
    text(&v, from, to)
}

/// The fields of `s` between occurrences of `sep`: one more than there are
/// separators.
pub open spec fn fields(s: Seq<char>, sep: char) -> Seq<Seq<char>>
    decreases s.len(),
{
    if s.len() == 0 {
        seq![Seq::empty()]
    } else {
        let init = fields(s.drop_last(), sep);
        if s.last() == sep {
            init.push(Seq::empty())
        } else {
            init.drop_last().push(init.last().push(s.last()))
        }
    }
}

/// Split at every occurrence of a character.
pub fn split(s: &str, sep: char) -> (r: Vec<String>)
    ensures
        r.deep_view() == fields(s@, sep),
        r@.len() >= 1,
{
    let v = chars(s);
    let mut done: Vec<String> = Vec::new();
    let mut cur = String::new();
    let mut i: usize = 0;
    assert(s@.take(0) =~= Seq::<char>::empty());
    assert(done.deep_view().push(cur@) =~= fields(s@.take(0), sep));
    while i < v.len()
        invariant
            i <= v@.len(),
            v@ == s@,
            done.deep_view().push(cur@) == fields(s@.take(i as int), sep),
        decreases v@.len() - i,
    {
        let c = v[i];
        proof {
            assert(s@.take(i + 1).drop_last() =~= s@.take(i as int));
            assert(s@.take(i + 1).last() == c);
            assert(done.deep_view().push(cur@).drop_last() =~= done.deep_view());
        }
        if c == sep {
            let ghost before_push = done.deep_view().push(cur@);
            done.push(cur);
            cur = String::new();
            assert(done.deep_view() =~= before_push);
        } else {
            cur.push(c);
        }
        i += 1;
    }
    let ghost whole = done.deep_view().push(cur@);
    done.push(cur);
    assert(done.deep_view() =~= whole);
    assert(s@.take(s@.len() as int) =~= s@);
    done
}

/// The maximal runs of characters that are not white space.
pub open spec fn words(s: Seq<char>) -> Seq<Seq<char>>
    decreases s.len(),
{
    if s.len() == 0 {
        Seq::empty()
    } else {
        let init = words(s.drop_last());
        if space(s.last()) {
            init
        } else if s.len() == 1 || space(s[s.len() - 2]) {
            init.push(seq![s.last()])
        } else {
            init.drop_last().push(init.last().push(s.last()))
        }
    }
}

/// Split at white space, dropping empty pieces.
pub fn split_words(s: &str) -> (r: Vec<String>)
    ensures
        r.deep_view() == words(s@),
{
    let v = chars(s);
    let mut done: Vec<String> = Vec::new();
    let mut cur = String::new();
    let mut open: bool = false;
    let mut i: usize = 0;
    assert(s@.take(0) =~= Seq::<char>::empty());
    assert(done.deep_view() =~= words(s@.take(0)));
    while i < v.len()
        invariant
            i <= v@.len(),
            v@ == s@,
            open == (i > 0 && !space(s@[i - 1])),
            open ==> done.deep_view().push(cur@) == words(s@.take(i as int)),
            !open ==> done.deep_view() == words(s@.take(i as int)) && cur@.len() == 0,
        decreases v@.len() - i,
    {
        let c = v[i];
        proof {
            assert(s@.take(i + 1).drop_last() =~= s@.take(i as int));
            assert(s@.take(i + 1).last() == c);
            assert(done.deep_view().push(cur@).drop_last() =~= done.deep_view());
            if i > 0 {
                assert(s@.take(i + 1)[i - 1] == s@[i - 1]);
            }
        }
        if is_space(c) {
            if open {
                let ghost before_push = done.deep_view().push(cur@);
                done.push(cur);
                cur = String::new();
                assert(done.deep_view() =~= before_push);
            }
            open = false;
        } else {
            let ghost was = cur@;
            cur.push(c);
            assert(!open ==> cur@ =~= seq![c]);
            open = true;
        }
        i += 1;
    }
    if open {
        let ghost whole = done.deep_view().push(cur@);
        done.push(cur);
        assert(done.deep_view() =~= whole);
    }
    assert(s@.take(s@.len() as int) =~= s@);
    done
}

/// A line without the carriage return that ended it.
pub open spec fn without_return(s: Seq<char>) -> Seq<char> {
    if s.len() > 0 && s.last() == '\r' {
        s.drop_last()
    } else {
        s
    }
}

/// The lines of a text. A line feed ends a line, with the carriage return
/// before it where there is one; a last line need not be ended.
pub open spec fn lines(s: Seq<char>) -> Seq<Seq<char>> {
    let parts = fields(s, '\n');
    let ended = parts.drop_last().map_values(|l: Seq<char>| without_return(l));
    if parts.last().len() == 0 {
        ended
    } else {
        ended.push(parts.last())
    }
}

/// Split a text into its lines.
pub fn split_lines(s: &str) -> (r: Vec<String>)
    ensures
        r.deep_view() == lines(s@),
{
    let mut parts = split(s, '\n');
    let ghost all = parts.deep_view();
    let last = match parts.pop() {
        Some(l) => l,
        None => String::new(),
    };
    assert(parts.deep_view() =~= all.drop_last());
    let mut out: Vec<String> = Vec::new();
    let mut i: usize = 0;
    let ghost strip = |l: Seq<char>| without_return(l);
    assert(out.deep_view() =~= all.drop_last().take(0).map_values(strip));
    while i < parts.len()
        invariant
            i <= parts@.len(),
            parts.deep_view() == all.drop_last(),
            strip == (|l: Seq<char>| without_return(l)),
            out.deep_view() == all.drop_last().take(i as int).map_values(strip),
        decreases parts@.len() - i,
    {
        let v = chars(parts[i].as_str());
        let line = if v.len() > 0 && v[v.len() - 1] == '\r' {
            text(&v, 0, v.len() - 1)
        } else {
            text(&v, 0, v.len())
        };
        proof {
            assert(v@ == all.drop_last()[i as int]);
            assert(v@.subrange(0, v@.len() as int) =~= v@);
            assert(line@ =~= without_return(v@));
        }
        let ghost old_out = out.deep_view();
        out.push(line);
        assert(out.deep_view() =~= old_out.push(line@));
        assert(all.drop_last().take(i + 1).map_values(strip) =~= all.drop_last().take(
            i as int,
        ).map_values(strip).push(without_return(v@)));
        i += 1;
    }
    assert(all.drop_last().take(parts@.len() as int) =~= all.drop_last());
    if !last.as_str().is_empty() {
        let ghost old_out = out.deep_view();
        out.push(last);
        assert(out.deep_view() =~= old_out.push(last@));
    }
    out
}

/// `pattern` stands in `s` at position `i`.
pub open spec fn occurs(s: Seq<char>, pattern: Seq<char>, i: int) -> bool {
    0 <= i && i + pattern.len() <= s.len() && s.subrange(i, i + pattern.len()) == pattern
}

/// The first position, not before `from`, at which `pattern` stands in `s`.
pub open spec fn first_from(s: Seq<char>, pattern: Seq<char>, from: int) -> Option<int>
    decreases s.len() - from + 1,
{
    if from + pattern.len() > s.len() {
        None
    } else if occurs(s, pattern, from) {
        Some(from)
    } else {
        first_from(s, pattern, from + 1)
    }
}

/// The last position, not after `from`, at which `pattern` stands in `s`.
pub open spec fn last_from(s: Seq<char>, pattern: Seq<char>, from: int) -> Option<int>
    decreases from + 1,
{
    if from < 0 {
        None
    } else if occurs(s, pattern, from) {
        Some(from)
    } else {
        last_from(s, pattern, from - 1)
    }
}

/// What stands before and after the first `pattern`.
pub open spec fn cut_first(s: Seq<char>, pattern: Seq<char>) -> Option<(Seq<char>, Seq<char>)> {
    match first_from(s, pattern, 0) {
        Some(i) => Some((s.take(i), s.skip(i + pattern.len()))),
        None => None,
    }
}

/// What stands before and after the last `pattern`.
pub open spec fn cut_last(s: Seq<char>, pattern: Seq<char>) -> Option<(Seq<char>, Seq<char>)> {
    match last_from(s, pattern, s.len() - pattern.len()) {
        Some(i) => Some((s.take(i), s.skip(i + pattern.len()))),
        None => None,
    }
}

/// Whether `p` stands in `v` at position `i`.
fn occurs_at(v: &Vec<char>, p: &Vec<char>, i: usize) -> (r: bool)
    requires
        i + p@.len() <= v@.len(),
    ensures
        r == occurs(v@, p@, i as int),
{
    let n: usize = v.len();
    let mut j: usize = 0;
    while j < p.len()
        invariant
            j <= p@.len(),
            i + p@.len() <= v@.len() == n,
            forall|k: int| 0 <= k < j ==> v@[i + k] == p@[k],
        decreases p@.len() - j,
    {
        if v[i + j] != p[j] {
            assert(v@.subrange(i as int, i + p@.len())[j as int] != p@[j as int]);
            return false;
        }
        j += 1;
    }
    assert(v@.subrange(i as int, i + p@.len()) =~= p@);
    true
}

/// Split at the first `pattern`.
pub fn split_once(s: &str, pattern: &str) -> (r: Option<(String, String)>)
    ensures
        r.deep_view() == cut_first(s@, pattern@),
{
    let v = chars(s);
    let p = chars(pattern);
    if p.len() > v.len() {
        return None;
    }
    let n: usize = v.len();
    let last: usize = n - p.len();
    let mut i: usize = 0;
    while i <= last
        invariant
            v@ == s@,
            p@ == pattern@,
            last == n - p@.len(),
            n == v@.len(),
            i <= last + 1,
            last < usize::MAX || p@.len() == 0,
            first_from(s@, pattern@, 0) == first_from(s@, pattern@, i as int),
        decreases last + 1 - i,
    {
        if occurs_at(&v, &p, i) {
            let a = text(&v, 0, i);
            let b = text(&v, i + p.len(), v.len());
            assert(s@.skip(i + p@.len()) =~= s@.subrange(i + p@.len(), s@.len() as int));
            assert(s@.take(i as int) =~= s@.subrange(0, i as int));
            return Some((a, b));
        }
        if i == last {
            assert(first_from(s@, pattern@, i + 1) is None);
            return None;
        }
        i += 1;
    }
    None
}

/// Split at the last `pattern`.
pub fn rsplit_once(s: &str, pattern: &str) -> (r: Option<(String, String)>)
    ensures
        r.deep_view() == cut_last(s@, pattern@),
{
    let v = chars(s);
    let p = chars(pattern);
    if p.len() > v.len() {
        return None;
    }
    let n: usize = v.len();
    let last: usize = n - p.len();
    let mut i: usize = last;
    loop
        invariant
            v@ == s@,
            p@ == pattern@,
            last == n - p@.len(),
            n == v@.len(),
            i <= last,
            last_from(s@, pattern@, last as int) == last_from(s@, pattern@, i as int),
        decreases i,
    {
        if occurs_at(&v, &p, i) {
            let a = text(&v, 0, i);
            let b = text(&v, i + p.len(), v.len());
            assert(s@.skip(i + p@.len()) =~= s@.subrange(i + p@.len(), s@.len() as int));
            assert(s@.take(i as int) =~= s@.subrange(0, i as int));
            return Some((a, b));
        }
        if i == 0 {
            assert(last_from(s@, pattern@, -1) is None);
            return None;
        }
        i -= 1;
    }
}

/// The text without the run of `c` that begins it.
pub open spec fn without_leading(s: Seq<char>, c: char) -> Seq<char>
    decreases s.len(),
{
    if s.len() > 0 && s[0] == c {
        without_leading(s.drop_first(), c)
    } else {
        s
    }
}

/// The text without the run of `c` that ends it.
pub open spec fn without_trailing(s: Seq<char>, c: char) -> Seq<char>
    decreases s.len(),
{
    if s.len() > 0 && s.last() == c {
        without_trailing(s.drop_last(), c)
    } else {
        s
    }
}

/// Strip every leading `c`.
pub fn strip_leading(s: &str, c: char) -> (r: String)
    ensures
        r@ == without_leading(s@, c),
{
    let v = chars(s);
    let mut from: usize = 0;
    assert(s@.skip(0) =~= s@);
    while from < v.len() && v[from] == c
        invariant
            from <= v@.len(),
            v@ == s@,
            without_leading(s@, c) == without_leading(s@.skip(from as int), c),
        decreases v@.len() - from,
    {
        proof {
            assert(s@.skip(from as int).drop_first() =~= s@.skip(from + 1));
        }
        from += 1;
    }
    assert(s@.skip(from as int) =~= s@.subrange(from as int, s@.len() as int));
    text(&v, from, v.len())
}

/// Strip every trailing `c`.
pub fn strip_trailing(s: &str, c: char) -> (r: String)
    ensures
        r@ == without_trailing(s@, c),
{
    let v = chars(s);
    let mut to: usize = v.len();
    assert(s@.take(s@.len() as int) =~= s@);
    while to > 0 && v[to - 1] == c
        invariant
            to <= v@.len(),
            v@ == s@,
            without_trailing(s@, c) == without_trailing(s@.take(to as int), c),
        decreases to,
    {
        proof {
            assert(s@.take(to as int).drop_last() =~= s@.take(to - 1));
        }
        to -= 1;
    }
    assert(s@.take(to as int) =~= s@.subrange(0, to as int));
    text(&v, 0, to)
}

/// Pieces glued together with a separator between neighbours.
pub open spec fn joined(parts: Seq<Seq<char>>, sep: Seq<char>) -> Seq<char>
    decreases parts.len(),
{
    if parts.len() == 0 {
        Seq::empty()
    } else if parts.len() == 1 {
        parts[0]
    } else {
        joined(parts.drop_last(), sep) + sep + parts.last()
    }
}

/// Join the pieces `from..to` with a separator.
pub fn join(parts: &Vec<String>, from: usize, to: usize, sep: &str) -> (r: String)
    requires
        from <= to <= parts@.len(),
    ensures
        r@ == joined(parts.deep_view().subrange(from as int, to as int), sep@),
{
    let mut out = String::new();
    let mut i: usize = from;
    let ghost all = parts.deep_view();
    assert(all.subrange(from as int, from as int) =~= Seq::<Seq<char>>::empty());
    while i < to
        invariant
            from <= i <= to <= parts@.len(),
            all == parts.deep_view(),
            out@ == joined(all.subrange(from as int, i as int), sep@),
        decreases to - i,
    {
        if i > from {
            out.append(sep);
        }
        out.append(parts[i].as_str());
        proof {
            let next = all.subrange(from as int, i + 1);
            assert(next.drop_last() =~= all.subrange(from as int, i as int));
            assert(next.last() == parts@[i as int]@);
            if i == from {
                assert(out@ =~= parts@[i as int]@);
            }
        }
        i += 1;
    }
    out
}

/// `n` blanks.
pub open spec fn blanks(n: nat) -> Seq<char> {
    Seq::new(n, |i: int| ' ')
}

/// The text followed by blanks up to a width.
pub open spec fn padded(s: Seq<char>, width: nat) -> Seq<char> {
    if s.len() < width {
        s + blanks((width - s.len()) as nat)
    } else {
        s
    }
}

/// The text preceded by blanks up to a width.
pub open spec fn right_aligned(s: Seq<char>, width: nat) -> Seq<char> {
    if s.len() < width {
        blanks((width - s.len()) as nat) + s
    } else {
        s
    }
}

/// Append blanks.
fn push_blanks(out: &mut String, n: usize)
    ensures
        final(out)@ == old(out)@ + blanks(n as nat),
{
    let mut i: usize = 0;
    assert(out@ =~= old(out)@ + blanks(0));
    while i < n
        invariant
            i <= n,
            out@ == old(out)@ + blanks(i as nat),
        decreases n - i,
    {
        out.push(' ');
        assert(out@ =~= old(out)@ + blanks((i + 1) as nat));
        i += 1;
    }
}

/// Left-align in a column of `width` characters; longer text overflows it.
pub fn pad(s: &str, width: usize) -> (r: String)
    ensures
        r@ == padded(s@, width as nat),
{
    let n: usize = s.unicode_len();
    let mut out = s.to_string();
    if n < width {
        push_blanks(&mut out, width - n);
    }
    out
}

/// Right-align in a column of `width` characters; longer text overflows it.
pub fn align_right(s: &str, width: usize) -> (r: String)
    ensures
        r@ == right_aligned(s@, width as nat),
{
    let n: usize = s.unicode_len();
    let mut out = String::new();
    if n < width {
        push_blanks(&mut out, width - n);
        assert(out@ =~= blanks((width - n) as nat));
    }
    out.append(s);
    assert(n >= width ==> out@ =~= s@);
    out
}

/// The text cut to at most `max` characters, the last of them an ellipsis
/// where something was cut.
pub open spec fn truncated(s: Seq<char>, max: nat) -> Seq<char> {
    if s.len() <= max {
        s
    } else if max == 0 {
        seq!['\u{2026}']
    } else {
        s.take(max - 1).push('\u{2026}')
    }
}

/// Cut a text to a column width.
pub fn truncate(s: &str, max: usize) -> (r: String)
    ensures
        r@ == truncated(s@, max as nat),
{
    let v = chars(s);
    if v.len() <= max {
        return s.to_string();
    }
    let keep: usize = if max == 0 { 0 } else { max - 1 };
    let mut out = text(&v, 0, keep);
    out.push('\u{2026}');
    assert(s@.take(keep as int) =~= s@.subrange(0, keep as int));
    assert(max == 0 ==> out@ =~= seq!['\u{2026}']);
    out
}

/// The ASCII lower-case form of a character.
pub open spec fn lower(c: char) -> char {
    if 'A' as u32 <= c as u32 <= 'Z' as u32 {
        ((c as u32 + 32) as u32) as char
    } else {
        c
    }
}

/// Lower-case an ASCII letter; other characters stay.
pub fn to_lower(c: char) -> (r: char)
    ensures
        r == lower(c),
{
    let u: u32 = c as u32;
    if 65 <= u && u <= 90 {
        (u as u8 + 32) as char
    } else {
        c
    }
}

/// A separator is what fields are told apart by, and nothing else: no field
/// holds it, and joined with it the fields make the text again.
#[verifier::rlimit(60)]
pub proof fn law_fields_make_the_text(s: Seq<char>, sep: char)
    ensures
        fields(s, sep).len() >= 1,
        forall|i: int| 0 <= i < fields(s, sep).len() ==> !(#[trigger] fields(s, sep)[i]).contains(sep),
        joined(fields(s, sep), seq![sep]) == s,
    decreases s.len(),
{
    if s.len() == 0 {
        assert(joined(fields(s, sep), seq![sep]) =~= s);
    } else {
        let init = fields(s.drop_last(), sep);
        let all = fields(s, sep);
        law_fields_make_the_text(s.drop_last(), sep);
        if s.last() == sep {
            assert(all.drop_last() =~= init);
            assert(joined(all, seq![sep]) =~= s);
        } else {
            let grown = init.last().push(s.last());
            assert(all.drop_last() =~= init.drop_last());
            assert forall|i: int| 0 <= i < all.len() implies !(#[trigger] all[i]).contains(sep) by {
                if i < all.len() - 1 {
                    assert(all[i] == init[i]);
                } else {
                    assert(!init[init.len() - 1].contains(sep));
                    if grown.contains(sep) {
                        let k = grown.index_of(sep);
                        assert(init.last()[k] == sep);
                    }
                }
            }
            if init.len() == 1 {
                assert(joined(init, seq![sep]) == init[0]);
                assert(all[0] == grown);
                assert(grown =~= s);
            } else {
                let head = joined(init.drop_last(), seq![sep]);
                assert(s.drop_last() == head + seq![sep] + init.last());
                assert(joined(all, seq![sep]) == head + seq![sep] + grown);
                assert(head + seq![sep] + grown =~= (head + seq![sep] + init.last()).push(s.last()));
                assert(s =~= s.drop_last().push(s.last()));
            }
        }
    }
}

proof fn lemma_field_added(s: Seq<char>, sep: char, more: Seq<char>)
    requires
        !more.contains(sep),
    ensures
        fields(s + seq![sep] + more, sep) == fields(s, sep).push(more),
    decreases more.len(),
{
    let t = s + seq![sep] + more;
    if more.len() == 0 {
        assert(t.drop_last() =~= s);
        assert(more =~= Seq::empty());
    } else {
        let init = more.drop_last();
        assert(more[more.len() - 1] != sep);
        assert(!init.contains(sep)) by {
            assert forall|i: int| 0 <= i < init.len() implies init[i] != sep by {
                assert(more[i] != sep);
            }
        }
        lemma_field_added(s, sep, init);
        assert(t.drop_last() =~= s + seq![sep] + init);
        assert(fields(s, sep).push(init).drop_last() =~= fields(s, sep));
        assert(init.push(more.last()) =~= more);
    }
}

proof fn lemma_one_field(s: Seq<char>, sep: char)
    requires
        !s.contains(sep),
    ensures
        fields(s, sep) == seq![s],
    decreases s.len(),
{
    if s.len() > 0 {
        let init = s.drop_last();
        assert(s[s.len() - 1] != sep);
        assert(!init.contains(sep)) by {
            assert forall|i: int| 0 <= i < init.len() implies init[i] != sep by {
                assert(s[i] != sep);
            }
        }
        lemma_one_field(init, sep);
        assert(init.push(s.last()) =~= s);
        assert(fields(s, sep) =~= seq![s]);
    } else {
        assert(s =~= Seq::empty());
    }
}

/// Pieces that are joined with a separator that none of them holds are the
/// fields of what they make.
pub proof fn law_joined_pieces_are_the_fields(parts: Seq<Seq<char>>, sep: char)
    requires
        parts.len() > 0,
        forall|i: int| 0 <= i < parts.len() ==> !(#[trigger] parts[i]).contains(sep),
    ensures
        fields(joined(parts, seq![sep]), sep) == parts,
    decreases parts.len(),
{
    if parts.len() == 1 {
        lemma_one_field(parts[0], sep);
        assert(seq![parts[0]] =~= parts);
    } else {
        let init = parts.drop_last();
        assert forall|i: int| 0 <= i < init.len() implies !(#[trigger] init[i]).contains(sep) by {
            assert(parts[i] == init[i]);
        }
        law_joined_pieces_are_the_fields(init, sep);
        assert(!parts[parts.len() - 1].contains(sep));
        lemma_field_added(joined(init, seq![sep]), sep, parts.last());
        assert(init.push(parts.last()) =~= parts);
    }
}

proof fn lemma_trim_start(s: Seq<char>)
    ensures
        trim_start(s).len() > 0 ==> !space(trim_start(s)[0]),
        trim_start(s).len() <= s.len(),
        s.skip(s.len() - trim_start(s).len()) == trim_start(s),
        forall|i: int| 0 <= i < s.len() - trim_start(s).len() ==> space(#[trigger] s[i]),
    decreases s.len(),
{
    if s.len() > 0 && space(s[0]) {
        let t = s.drop_first();
        lemma_trim_start(t);
        assert(s.skip(s.len() - trim_start(t).len()) =~= t.skip(t.len() - trim_start(t).len()));
        assert forall|i: int| 0 <= i < s.len() - trim_start(s).len() implies space(#[trigger] s[i]) by {
            if i > 0 {
                assert(t[i - 1] == s[i]);
            }
        }
    } else {
        assert(s.skip(0) =~= s);
    }
}

proof fn lemma_trim_end(s: Seq<char>)
    ensures
        trim_end(s).len() > 0 ==> !space(trim_end(s).last()),
        trim_end(s).len() <= s.len(),
        s.take(trim_end(s).len() as int) == trim_end(s),
        forall|i: int| trim_end(s).len() <= i < s.len() ==> space(#[trigger] s[i]),
    decreases s.len(),
{
    if s.len() > 0 && space(s.last()) {
        let t = s.drop_last();
        lemma_trim_end(t);
        assert(s.take(trim_end(t).len() as int) =~= t.take(trim_end(t).len() as int));
        assert forall|i: int| trim_end(s).len() <= i < s.len() implies space(#[trigger] s[i]) by {
            if i < s.len() - 1 {
                assert(t[i] == s[i]);
            }
        }
    } else {
        assert(s.take(s.len() as int) =~= s);
    }
}

/// Trimming takes away the white space at both ends, all of it and nothing else.
pub proof fn law_trimming_takes_only_space(s: Seq<char>) -> (r: (Seq<char>, Seq<char>))
    ensures
        s == r.0 + trimmed(s) + r.1,
        forall|i: int| 0 <= i < r.0.len() ==> space(#[trigger] r.0[i]),
        forall|i: int| 0 <= i < r.1.len() ==> space(#[trigger] r.1[i]),
        trimmed(s).len() > 0 ==> !space(trimmed(s)[0]) && !space(trimmed(s).last()),
{
    let t = trim_start(s);
    lemma_trim_start(s);
    lemma_trim_end(t);
    let a = s.take(s.len() - t.len());
    let b = t.skip(trimmed(s).len() as int);
    assert(t =~= trimmed(s) + b);
    assert(s =~= a + t);
    assert(s =~= a + trimmed(s) + b);
    assert forall|i: int| 0 <= i < b.len() implies space(#[trigger] b[i]) by {
        assert(b[i] == t[trimmed(s).len() + i]);
    }
    (a, b)
}

/// A text without white space at its ends stays as it is when it is trimmed.
pub proof fn law_trimmed_text_stays(s: Seq<char>)
    requires
        s.len() > 0 ==> !space(s[0]) && !space(s.last()),
    ensures
        trimmed(s) == s,
{
}

proof fn lemma_first_from(s: Seq<char>, pattern: Seq<char>, from: int)
    requires
        0 <= from,
    ensures
        match first_from(s, pattern, from) {
            Some(i) => {
                &&& from <= i && occurs(s, pattern, i)
                &&& forall|j: int| from <= j < i ==> !#[trigger] occurs(s, pattern, j)
            },
            None => forall|j: int| from <= j ==> !#[trigger] occurs(s, pattern, j),
        },
    decreases s.len() - from + 1,
{
    if from + pattern.len() <= s.len() && !occurs(s, pattern, from) {
        lemma_first_from(s, pattern, from + 1);
    }
}

proof fn lemma_last_from(s: Seq<char>, pattern: Seq<char>, from: int)
    ensures
        match last_from(s, pattern, from) {
            Some(i) => {
                &&& i <= from && occurs(s, pattern, i)
                &&& forall|j: int| i < j <= from ==> !#[trigger] occurs(s, pattern, j)
            },
            None => forall|j: int| j <= from ==> !#[trigger] occurs(s, pattern, j),
        },
    decreases from + 1,
{
    if from >= 0 && !occurs(s, pattern, from) {
        lemma_last_from(s, pattern, from - 1);
    }
}

/// A text is cut at the first place where the pattern stands, into what stands
/// before and after it, and only where it stands there at all.
pub proof fn law_text_is_cut_at_the_first(s: Seq<char>, pattern: Seq<char>)
    ensures
        match cut_first(s, pattern) {
            Some((a, b)) => {
                &&& s == a + pattern + b
                &&& forall|j: int| 0 <= j < a.len() ==> !#[trigger] occurs(s, pattern, j)
            },
            None => forall|j: int| !#[trigger] occurs(s, pattern, j),
        },
{
    lemma_first_from(s, pattern, 0);
    if let Some((a, b)) = cut_first(s, pattern) {
        let i = first_from(s, pattern, 0)->0;
        assert(s.subrange(i, i + pattern.len()) == pattern);
        assert(s =~= a + s.subrange(i, i + pattern.len()) + b);
    }
}

/// A text is cut at the last place where the pattern stands, into what stands
/// before and after it, and only where it stands there at all.
pub proof fn law_text_is_cut_at_the_last(s: Seq<char>, pattern: Seq<char>)
    ensures
        match cut_last(s, pattern) {
            Some((a, b)) => {
                &&& s == a + pattern + b
                &&& forall|j: int| a.len() < j ==> !#[trigger] occurs(s, pattern, j)
            },
            None => forall|j: int| !#[trigger] occurs(s, pattern, j),
        },
{
    let top = s.len() - pattern.len();
    lemma_last_from(s, pattern, top);
    if let Some((a, b)) = cut_last(s, pattern) {
        let i = last_from(s, pattern, top)->0;
        assert(s.subrange(i, i + pattern.len()) == pattern);
        assert(s =~= a + s.subrange(i, i + pattern.len()) + b);
    }
}

/// Texts are ordered as in a dictionary: what they have in common at the start
/// does not matter, then the lower code point comes first, and a text comes
/// before what goes on behind it.
pub proof fn law_texts_are_ordered_as_in_a_dictionary(head: Seq<char>, a: Seq<char>, b: Seq<char>)
    ensures
        before(head + a, head + b) == before(a, b),
        a.len() > 0 && b.len() > 0 && (a[0] as int) < (b[0] as int) ==> before(a, b),
        b.len() > 0 ==> before(head, head + b),
        !before(a, a),
    decreases head.len() + a.len(),
{
    if head.len() > 0 {
        let rest = head.drop_first();
        law_texts_are_ordered_as_in_a_dictionary(rest, a, b);
        assert((head + a).drop_first() =~= rest + a);
        assert((head + b).drop_first() =~= rest + b);
    } else {
        assert(head + a =~= a);
        assert(head + b =~= b);
        if a.len() > 0 {
            law_texts_are_ordered_as_in_a_dictionary(head, a.drop_first(), b);
        }
    }
}

/// A column holds its text whole, and is as wide as was asked for, or as the
/// text where that is wider: the rest is blanks, behind the text or before it.
pub proof fn law_columns_hold_their_text(s: Seq<char>, width: nat)
    ensures
        padded(s, width).len() == if s.len() < width {
            width
        } else {
            s.len()
        },
        right_aligned(s, width).len() == padded(s, width).len(),
        padded(s, width).take(s.len() as int) == s,
        right_aligned(s, width).skip(right_aligned(s, width).len() - s.len()) == s,
        forall|i: int| s.len() <= i < padded(s, width).len() ==> #[trigger] padded(s, width)[i] == ' ',
        forall|i: int|
            0 <= i < right_aligned(s, width).len() - s.len() ==> #[trigger] right_aligned(s, width)[i] == ' ',
{
    assert(padded(s, width).take(s.len() as int) =~= s);
    assert(right_aligned(s, width).skip(right_aligned(s, width).len() - s.len()) =~= s);
}

/// A text that fits is shown whole. One that does not is cut to the width, and
/// what is shown of it but for the last character is its beginning.
pub proof fn law_cut_texts_fit(s: Seq<char>, max: nat)
    requires
        max > 0,
    ensures
        truncated(s, max).len() <= max,
        s.len() <= max ==> truncated(s, max) == s,
        s.len() > max ==> truncated(s, max).len() == max && truncated(s, max).drop_last() == s.take(max - 1)
            && truncated(s, max).last() == '\u{2026}',
{
    if s.len() > max {
        assert(truncated(s, max).drop_last() =~= s.take(max - 1));
    }
}

proof fn lemma_words_shape(s: Seq<char>)
    ensures
        s.len() > 0 && !space(s.last()) ==> words(s).len() > 0,
        forall|i: int| 0 <= i < words(s).len() ==> (#[trigger] words(s)[i]).len() > 0,
        forall|i: int, j: int|
            0 <= i < words(s).len() && 0 <= j < words(s)[i].len() ==> !space(#[trigger] words(s)[i][j]),
    decreases s.len(),
{
    if s.len() > 0 {
        let init = words(s.drop_last());
        lemma_words_shape(s.drop_last());
        let all = words(s);
        if !space(s.last()) && s.len() > 1 && !space(s[s.len() - 2]) {
            assert(s.drop_last().last() == s[s.len() - 2]);
            assert forall|i: int, j: int| 0 <= i < all.len() && 0 <= j < all[i].len() implies !space(
                #[trigger] all[i][j],
            ) by {
                if i < all.len() - 1 {
                    assert(all[i] == init[i]);
                } else if j < all[i].len() - 1 {
                    assert(all[i][j] == init[init.len() - 1][j]);
                }
            }
        }
    }
}

/// Words hold no white space and are never empty.
pub proof fn law_words_hold_no_space(s: Seq<char>, i: int)
    requires
        0 <= i < words(s).len(),
    ensures
        words(s)[i].len() > 0,
        forall|j: int| 0 <= j < words(s)[i].len() ==> !space(#[trigger] words(s)[i][j]),
{
    lemma_words_shape(s);
}

proof fn lemma_word_grows(s: Seq<char>, w: Seq<char>)
    requires
        s.len() == 0 || space(s.last()),
        w.len() > 0,
        forall|i: int| 0 <= i < w.len() ==> !space(#[trigger] w[i]),
    ensures
        words(s + w) == words(s).push(w),
    decreases w.len(),
{
    let t = s + w;
    assert(!space(w[w.len() - 1]));
    if w.len() == 1 {
        assert(t.drop_last() =~= s);
        assert(seq![t.last()] =~= w);
    } else {
        let init = w.drop_last();
        assert forall|i: int| 0 <= i < init.len() implies !space(#[trigger] init[i]) by {
            assert(w[i] == init[i]);
        }
        lemma_word_grows(s, init);
        assert(t.drop_last() =~= s + init);
        assert(t[t.len() - 2] == w[w.len() - 2]);
        assert(!space(w[w.len() - 2]));
        assert(words(s).push(init).drop_last() =~= words(s));
        assert(init.push(w.last()) =~= w);
    }
}

/// A text that goes on with white space and a word has that word behind its
/// others; white space at its end adds none.
pub proof fn law_words_are_told_apart_by_space(s: Seq<char>, c: char, w: Seq<char>)
    requires
        space(c),
        w.len() > 0,
        forall|i: int| 0 <= i < w.len() ==> !space(#[trigger] w[i]),
    ensures
        words(s.push(c)) == words(s),
        words(s.push(c) + w) == words(s).push(w),
        words(w) == seq![w],
        words(Seq::empty()).len() == 0,
{
    assert(s.push(c).drop_last() =~= s);
    lemma_word_grows(s.push(c), w);
    lemma_word_grows(Seq::empty(), w);
    assert(Seq::<char>::empty() + w =~= w);
    assert(words(Seq::<char>::empty()).push(w) =~= seq![w]);
}

/// The lines of a text are those it was made of: each ended by a line feed, or
/// by a carriage return and a line feed, or by the end of the text.
pub proof fn law_lines_make_the_text(parts: Seq<Seq<char>>, last: Seq<char>)
    requires
        forall|i: int|
            0 <= i < parts.len() ==> !(#[trigger] parts[i]).contains('\n') && (parts[i].len() > 0
                ==> parts[i].last() != '\r'),
        !last.contains('\n'),
    ensures
        lines(joined(parts.push(last), seq!['\n'])) == if last.len() > 0 {
            parts.push(last)
        } else {
            parts
        },
{
    let all = parts.push(last);
    assert forall|i: int| 0 <= i < all.len() implies !(#[trigger] all[i]).contains('\n') by {
        if i < parts.len() {
            assert(all[i] == parts[i]);
        }
    }
    law_joined_pieces_are_the_fields(all, '\n');
    assert(all.drop_last() =~= parts);
    let ended = parts.map_values(|l: Seq<char>| without_return(l));
    assert(ended =~= parts) by {
        assert forall|i: int| 0 <= i < parts.len() implies #[trigger] ended[i] == parts[i] by {
            assert(!parts[i].contains('\n'));
        }
    }
}

/// Whether a text stands somewhere in another.
#[verifier::opaque]
pub open spec fn holds(s: Seq<char>, part: Seq<char>) -> bool {
    exists|i: int| #[trigger] occurs(s, part, i)
}

pub(crate) proof fn lemma_holds_end(s: Seq<char>, part: Seq<char>)
    ensures
        holds(s + part, part),
{
    reveal(holds);
    let t = s + part;
    assert(t.subrange(s.len() as int, t.len() as int) =~= part);
    assert(occurs(t, part, s.len() as int));
}

pub(crate) proof fn lemma_holds_more(s: Seq<char>, part: Seq<char>, more: Seq<char>)
    requires
        holds(s, part),
    ensures
        holds(s + more, part),
        holds(more + s, part),
{
    reveal(holds);
    let i = choose|i: int| #[trigger] occurs(s, part, i);
    let t = s + more;
    assert(t.subrange(i, i + part.len()) =~= s.subrange(i, i + part.len()));
    assert(occurs(t, part, i));
    let u = more + s;
    let j = more.len() + i;
    assert(u.subrange(j, j + part.len()) =~= s.subrange(i, i + part.len()));
    assert(occurs(u, part, j));
}

pub(crate) proof fn lemma_holds_three(s: Seq<char>, a: Seq<char>, b: Seq<char>, c: Seq<char>)
    ensures
        holds(s + a + b + c, a + b + c),
{
    lemma_holds_end(s, a + b + c);
    assert(s + a + b + c =~= s + (a + b + c));
}

pub(crate) proof fn lemma_column_holds(s: Seq<char>, width: nat)
    ensures
        holds(padded(s, width), s),
        holds(right_aligned(s, width), s),
{
    law_columns_hold_their_text(s, width);
    let p = padded(s, width);
    let q = right_aligned(s, width);
    lemma_holds_end(Seq::empty(), s);
    lemma_holds_more(Seq::<char>::empty() + s, s, p.skip(s.len() as int));
    assert(Seq::<char>::empty() + s + p.skip(s.len() as int) =~= p) by {
        assert(p =~= p.take(s.len() as int) + p.skip(s.len() as int));
    }
    lemma_holds_end(q.take(q.len() - s.len()), s);
    assert(q =~= q.take(q.len() - s.len()) + q.skip(q.len() - s.len()));
}

/// White space between two texts keeps their words apart: together they have the
/// words of the one and then those of the other.
#[verifier::rlimit(60)]
pub proof fn law_words_of_two_texts(s: Seq<char>, c: char, t: Seq<char>)
    requires
        space(c),
    ensures
        words(s.push(c) + t) == words(s) + words(t),
    decreases t.len(),
{
    let all = s.push(c) + t;
    if t.len() == 0 {
        assert(all =~= s.push(c));
        assert(s.push(c).drop_last() =~= s);
        assert(words(s) + words(t) =~= words(s));
    } else {
        let init = t.drop_last();
        law_words_of_two_texts(s, c, init);
        assert(all.drop_last() =~= s.push(c) + init);
        if space(t.last()) {
        } else if t.len() == 1 || space(t[t.len() - 2]) {
            assert(space(all[all.len() - 2]));
            assert((words(s) + words(init)).push(seq![t.last()]) =~= words(s) + words(init).push(seq![t.last()]));
        } else {
            assert(all[all.len() - 2] == t[t.len() - 2]);
            lemma_words_shape(init);
            assert(init.last() == t[t.len() - 2]);
            let w = words(init);
            let x = words(s) + w;
            assert(x.last() == w.last());
            assert(x.drop_last() =~= words(s) + w.drop_last());
            assert((words(s) + w.drop_last()).push(w.last().push(t.last())) =~= words(s) + w.drop_last().push(
                w.last().push(t.last()),
            ));
        }
    }
}

/// Blanks, tabs, line feeds and carriage returns are white space, and so are their
/// relatives beyond ASCII; letters, digits and signs are not.
pub proof fn law_white_space_is_invisible(c: char)
    ensures
        space(' ') && space('\t') && space('\n') && space('\r'),
        space('\u{a0}') && space('\u{2003}') && space('\u{3000}'),
        33 <= c as u32 <= 126 ==> !space(c),
        (c as u32) < 9 ==> !space(c),
{
}

/// Only capital letters of ASCII are changed, each to the small letter of the same
/// name, and no two letters become one that were not the same but for that.
pub proof fn law_capitals_become_small_letters(c: char, d: char)
    ensures
        lower(lower(c)) == lower(c),
        65 <= c as u32 <= 90 ==> lower(c) as u32 == c as u32 + 32,
        (c as u32) < 65 || c as u32 > 90 ==> lower(c) == c,
        lower(c) == lower(d) ==> c == d || c as u32 == d as u32 + 32 || d as u32 == c as u32 + 32,
{
}

} // verus!
