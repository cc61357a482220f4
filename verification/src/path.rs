//! Paths: joining, taking apart, comparing, and what a file's name says of its
//! language.
//!
//! A path is a text with `/` between its components. Repeated slashes and `.`
//! inside a path say nothing; a leading `/` and a leading `.` are components.

use vstd::prelude::*;

use crate::order::{
    comes_before, lemma_text_irreflexive, lemma_text_total, lemma_text_transitive, text_less,
};
use crate::text::{
    chars_of, find_char, first_index, lemma_first_index_bounds, owned, same_text, text_of,
};

verus! {

/// A file named relative to a directory, or as it is where it is absolute.
pub open spec fn joined(dir: Seq<char>, file: Seq<char>) -> Seq<char> {
    if file.len() > 0 && file[0] == '/' {
        file
    } else if dir.len() == 0 || dir.last() == '/' {
        dir + file
    } else {
        dir.push('/') + file
    }
}

/// Names a file relative to a directory.
pub fn join(dir: &str, file: &str) -> (r: String)
    ensures
        r@ == joined(dir@, file@),
{
    let f = chars_of(file);
    if f.len() > 0 && f[0] == '/' {
        return owned(file);
    }
    let d = chars_of(dir);
    let mut out = owned(dir);
    if d.len() > 0 && d[d.len() - 1] != '/' {
        out.push('/');
    }
    out.append(file);
    out
}

/// What becomes of a file's name, given what the file system makes of the joined
/// path: the resolved path, or why there is none.
pub open spec fn resolved(
    workspace: Seq<char>,
    file: Seq<char>,
    found: Result<Seq<char>, Seq<char>>,
) -> Result<Seq<char>, Seq<char>> {
    match found {
        Ok(p) => Ok(p),
        Err(e) => Err("file not found: "@ + joined(workspace, file) + ": "@ + e),
    }
}

/// Resolves a file named relative to the workspace, or absolutely, to a full
/// path, given what the file system makes of the joined path.
pub fn resolve(workspace: &str, file: &str, found: Result<String, String>) -> (r: Result<
    String,
    String,
>)
    ensures
        match (r, found) {
            (Ok(p), Ok(q)) => resolved(
                workspace@,
                file@,
                Ok::<Seq<char>, Seq<char>>(q@),
            ) == Ok::<Seq<char>, Seq<char>>(p@),
            (Err(e), Err(f)) => resolved(
                workspace@,
                file@,
                Err::<Seq<char>, Seq<char>>(f@),
            ) == Err::<Seq<char>, Seq<char>>(e@),
            _ => false,
        },
{
    match found {
        Ok(p) => Ok(p),
        Err(e) => {
            let mut m = owned("file not found: ");
            let p = join(workspace, file);
            m.append(p.as_str());
            m.append(": ");
            m.append(e.as_str());
            Err(m)
        },
    }
}

// ---------------------------------------------------------------------------
// Components
// ---------------------------------------------------------------------------

/// Where the component that begins at `i` ends.
pub open spec fn part_end(p: Seq<char>, i: int) -> int {
    i + first_index(p.skip(i), '/')
}

/// The components of a path from `i` on, each by where it begins and ends.
pub open spec fn parts_from(p: Seq<char>, i: int) -> Seq<(int, int)>
    decreases p.len() - i,
    via parts_from_decreases
{
    if i < 0 || i >= p.len() {
        Seq::empty()
    } else if p[i] == '/' {
        parts_from(p, i + 1)
    } else {
        let e = part_end(p, i);
        if i > 0 && e == i + 1 && p[i] == '.' {
            parts_from(p, e)
        } else {
            seq![(i, e)] + parts_from(p, e)
        }
    }
}

#[via_fn]
proof fn parts_from_decreases(p: Seq<char>, i: int) {
    if 0 <= i < p.len() && p[i] != '/' {
        lemma_first_index_bounds(p.skip(i), '/');
        assert(p.skip(i)[0] == p[i]);
    }
}

/// The components of a path, each by where it begins and ends.
pub open spec fn parts(p: Seq<char>) -> Seq<(int, int)> {
    if p.len() > 0 && p[0] == '/' {
        seq![(0int, 1int)] + parts_from(p, 1)
    } else {
        parts_from(p, 0)
    }
}

/// The components of a path.
pub open spec fn names(p: Seq<char>) -> Seq<Seq<char>> {
    parts(p).map_values(|r: (int, int)| p.subrange(r.0, r.1))
}

/// Components lie in the path, one behind the other.
proof fn lemma_parts_from(p: Seq<char>, i: int)
    requires
        0 <= i <= p.len(),
    ensures
        forall|k: int|
            #![trigger parts_from(p, i)[k]]
            0 <= k < parts_from(p, i).len() ==> i <= parts_from(p, i)[k].0 < parts_from(p, i)[k].1
                <= p.len(),
        forall|j: int, k: int|
            #![trigger parts_from(p, i)[j], parts_from(p, i)[k]]
            0 <= j < k < parts_from(p, i).len() ==> parts_from(p, i)[j].1 <= parts_from(p, i)[k].0,
    decreases p.len() - i,
{
    if i < p.len() {
        if p[i] == '/' {
            lemma_parts_from(p, i + 1);
            assert(parts_from(p, i) == parts_from(p, i + 1));
        } else {
            lemma_first_index_bounds(p.skip(i), '/');
            let e = part_end(p, i);
            assert(p.skip(i)[0] == p[i]);
            assert(e > i);
            lemma_parts_from(p, e);
            let rest = parts_from(p, e);
            let all = seq![(i, e)] + rest;
            assert forall|k: int| 0 <= k < all.len() implies i <= (#[trigger] all[k]).0 < all[k].1
                <= p.len() by {
                if k > 0 {
                    assert(all[k] == rest[k - 1]);
                }
            }
            assert forall|j: int, k: int|
                #![trigger all[j], all[k]]
                0 <= j < k < all.len() implies all[j].1 <= all[k].0 by {
                assert(all[k] == rest[k - 1]);
                if j > 0 {
                    assert(all[j] == rest[j - 1]);
                }
            }
            assert(parts_from(p, i) == all || parts_from(p, i) == rest);
        }
    }
}

proof fn lemma_parts(p: Seq<char>)
    ensures
        forall|k: int|
            #![trigger parts(p)[k]]
            0 <= k < parts(p).len() ==> 0 <= parts(p)[k].0 < parts(p)[k].1 <= p.len(),
        forall|j: int, k: int|
            #![trigger parts(p)[j], parts(p)[k]]
            0 <= j < k < parts(p).len() ==> parts(p)[j].1 <= parts(p)[k].0,
{
    if p.len() > 0 && p[0] == '/' {
        lemma_parts_from(p, 1);
        let rest = parts_from(p, 1);
        assert forall|k: int| 0 <= k < parts(p).len() implies 0 <= (#[trigger] parts(p)[k]).0
            < parts(p)[k].1 <= p.len() by {
            if k > 0 {
                assert(parts(p)[k] == rest[k - 1]);
            }
        }
        assert forall|j: int, k: int|
            #![trigger parts(p)[j], parts(p)[k]]
            0 <= j < k < parts(p).len() implies parts(p)[j].1 <= parts(p)[k].0 by {
            assert(parts(p)[k] == rest[k - 1]);
            if j > 0 {
                assert(parts(p)[j] == rest[j - 1]);
            }
        }
    } else {
        lemma_parts_from(p, 0);
    }
}

/// A component in a path, by where it begins and ends.
#[derive(Clone, Copy)]
struct Part {
    start: usize,
    end: usize,
}

spec fn part_views(v: Seq<Part>) -> Seq<(int, int)> {
    v.map_values(|x: Part| (x.start as int, x.end as int))
}

/// Takes a path apart.
fn split(p: &Vec<char>) -> (r: Vec<Part>)
    ensures
        part_views(r@) == parts(p@),
{
    let mut out: Vec<Part> = Vec::new();
    let mut i: usize = 0;
    if p.len() > 0 && p[0] == '/' {
        out.push(Part { start: 0, end: 1 });
        i = 1;
        assert(part_views(out@) =~= seq![(0int, 1int)]);
    } else {
        assert(part_views(out@) =~= Seq::empty());
    }
    assert(part_views(out@) + parts_from(p@, i as int) =~= parts(p@));
    while i < p.len()
        invariant
            i <= p@.len(),
            part_views(out@) + parts_from(p@, i as int) == parts(p@),
        decreases p@.len() - i,
    {
        if p[i] == '/' {
            i += 1;
        } else {
            let e: usize = find_char(p, i, '/');
            proof {
                lemma_first_index_bounds(p@.skip(i as int), '/');
                assert(p@.skip(i as int)[0] == p@[i as int]);
                assert(e > i);
            }
            let ghost before = part_views(out@);
            if !(i > 0 && e == i + 1 && p[i] == '.') {
                out.push(Part { start: i, end: e });
                assert(part_views(out@) =~= before.push((i as int, e as int)));
                assert(part_views(out@) + parts_from(p@, e as int) =~= before + parts_from(
                    p@,
                    i as int,
                ));
            }
            i = e;
        }
    }
    assert(part_views(out@) + parts_from(p@, i as int) =~= part_views(out@));
    out
}

/// The text of a component.
fn part_text(p: &Vec<char>, part: &Part) -> (r: String)
    requires
        part.start <= part.end <= p@.len(),
    ensures
        r@ == p@.subrange(part.start as int, part.end as int),
{
    text_of(p, part.start, part.end)
}

/// The place of a component in the order of components: the root, `.`, `..`, and
/// then the names.
pub open spec fn name_rank(n: Seq<char>) -> int {
    if n == "/"@ {
        0
    } else if n == "."@ {
        1
    } else if n == ".."@ {
        2
    } else {
        3
    }
}

/// Whether one component comes before another.
pub open spec fn name_less(a: Seq<char>, b: Seq<char>) -> bool {
    name_rank(a) < name_rank(b) || (name_rank(a) == 3 && name_rank(b) == 3 && text_less(a, b))
}

/// Whether one list of components comes before another.
pub open spec fn names_less(a: Seq<Seq<char>>, b: Seq<Seq<char>>) -> bool
    decreases a.len(),
{
    if b.len() == 0 {
        false
    } else if a.len() == 0 {
        true
    } else if a[0] != b[0] {
        name_less(a[0], b[0])
    } else {
        names_less(a.drop_first(), b.drop_first())
    }
}

/// Whether one path comes before another: the order of `std::path::Path`,
/// component by component.
pub open spec fn path_less(a: Seq<char>, b: Seq<char>) -> bool {
    names_less(names(a), names(b))
}

/// No component comes before itself.
proof fn lemma_name_irreflexive(a: Seq<char>)
    ensures
        !name_less(a, a),
{
    lemma_text_irreflexive(a);
}

proof fn lemma_name_transitive(a: Seq<char>, b: Seq<char>, c: Seq<char>)
    requires
        name_less(a, b),
        name_less(b, c),
    ensures
        name_less(a, c),
{
    if name_rank(a) == name_rank(c) {
        lemma_text_transitive(a, b, c);
    }
}

proof fn lemma_name_total(a: Seq<char>, b: Seq<char>)
    ensures
        a == b || name_less(a, b) || name_less(b, a),
{
    lemma_text_total(a, b);
}

/// No list of components comes before itself.
proof fn lemma_names_irreflexive(a: Seq<Seq<char>>)
    ensures
        !names_less(a, a),
    decreases a.len(),
{
    if a.len() > 0 {
        lemma_names_irreflexive(a.drop_first());
    }
}

proof fn lemma_names_transitive(a: Seq<Seq<char>>, b: Seq<Seq<char>>, c: Seq<Seq<char>>)
    requires
        names_less(a, b),
        names_less(b, c),
    ensures
        names_less(a, c),
    decreases a.len(),
{
    if a.len() > 0 {
        if a[0] == b[0] {
            if b[0] == c[0] {
                lemma_names_transitive(a.drop_first(), b.drop_first(), c.drop_first());
            }
        } else if b[0] != c[0] {
            lemma_name_transitive(a[0], b[0], c[0]);
            if a[0] == c[0] {
                lemma_name_irreflexive(a[0]);
            }
        }
    }
}

proof fn lemma_names_total(a: Seq<Seq<char>>, b: Seq<Seq<char>>)
    ensures
        a == b || names_less(a, b) || names_less(b, a),
    decreases a.len(),
{
    if a.len() == 0 || b.len() == 0 {
        if a.len() == b.len() {
            assert(a =~= b);
        }
    } else if a[0] == b[0] {
        lemma_names_total(a.drop_first(), b.drop_first());
        if a.drop_first() == b.drop_first() {
            assert(a =~= seq![a[0]] + a.drop_first());
            assert(b =~= seq![b[0]] + b.drop_first());
        }
    } else {
        lemma_name_total(a[0], b[0]);
    }
}

/// Paths are ordered: none comes before itself, before is passed on, and of two
/// that differ in a component one comes before the other.
pub proof fn lemma_path_order(a: Seq<char>, b: Seq<char>, c: Seq<char>)
    ensures
        !path_less(a, a),
        path_less(a, b) && path_less(b, c) ==> path_less(a, c),
        names(a) == names(b) || path_less(a, b) || path_less(b, a),
{
    lemma_names_irreflexive(names(a));
    lemma_names_total(names(a), names(b));
    if path_less(a, b) && path_less(b, c) {
        lemma_names_transitive(names(a), names(b), names(c));
    }
}

fn rank(n: &str) -> (r: u8)
    ensures
        r == name_rank(n@),
{
    if same_text(n, "/") {
        0
    } else if same_text(n, ".") {
        1
    } else if same_text(n, "..") {
        2
    } else {
        3
    }
}

/// The components of a path.
fn components(path: &str) -> (r: Vec<String>)
    ensures
        r@.map_values(|s: String| s@) == names(path@),
{
    let p = chars_of(path);
    let list = split(&p);
    proof {
        lemma_parts(p@);
    }
    let mut out: Vec<String> = Vec::new();
    let mut i: usize = 0;
    while i < list.len()
        invariant
            i <= list@.len(),
            p@ == path@,
            part_views(list@) == parts(path@),
            forall|k: int|
                #![trigger parts(path@)[k]]
                0 <= k < parts(path@).len() ==> 0 <= parts(path@)[k].0 < parts(path@)[k].1
                    <= path@.len(),
            out@.len() == i,
            forall|k: int| 0 <= k < i ==> (#[trigger] out@[k])@ == names(path@)[k],
        decreases list@.len() - i,
    {
        assert(parts(path@)[i as int] == (list@[i as int].start as int, list@[i as int].end as int));
        let name = part_text(&p, &list[i]);
        out.push(name);
        i += 1;
    }
    assert(out@.map_values(|s: String| s@) =~= names(path@));
    out
}

/// Whether path `a` comes before path `b`.
pub fn path_before(a: &str, b: &str) -> (r: bool)
    ensures
        r == path_less(a@, b@),
{
    let x = components(a);
    let y = components(b);
    let ghost xs = names(a@);
    let ghost ys = names(b@);
    assert(xs.len() == x@.len() && ys.len() == y@.len());
    let mut i: usize = 0;
    assert(xs.skip(0) =~= xs);
    assert(ys.skip(0) =~= ys);
    while i < x.len() && i < y.len()
        invariant
            xs == x@.map_values(|s: String| s@),
            ys == y@.map_values(|s: String| s@),
            xs == names(a@),
            ys == names(b@),
            i <= x@.len(),
            i <= y@.len(),
            names_less(xs.skip(i as int), ys.skip(i as int)) == names_less(xs, ys),
        decreases x@.len() - i,
    {
        assert(xs.skip(i as int)[0] == x@[i as int]@);
        assert(ys.skip(i as int)[0] == y@[i as int]@);
        if !same_text(x[i].as_str(), y[i].as_str()) {
            let m: u8 = rank(x[i].as_str());
            let n: u8 = rank(y[i].as_str());
            return m < n || (m == 3 && n == 3 && comes_before(x[i].as_str(), y[i].as_str()));
        }
        assert(xs.skip(i as int).drop_first() =~= xs.skip(i + 1));
        assert(ys.skip(i as int).drop_first() =~= ys.skip(i + 1));
        i += 1;
    }
    i < y.len()
}

/// Whether a list begins with another.
pub open spec fn starts_with(list: Seq<Seq<char>>, head: Seq<Seq<char>>) -> bool {
    head.len() <= list.len() && list.take(head.len() as int) == head
}

/// A path as it is shown: relative to a directory that it lies in, whole otherwise.
pub open spec fn shown(dir: Seq<char>, p: Seq<char>) -> Seq<char> {
    let k = names(dir).len();
    let all = parts(p);
    if !starts_with(names(p), names(dir)) {
        p
    } else if k == all.len() && k > 0 {
        Seq::empty()
    } else if all.len() == 0 {
        p
    } else {
        p.subrange(
            if k == 0 {
                0
            } else {
                all[k as int].0
            },
            all.last().1,
        )
    }
}

/// Shows a path: relative to `dir` where it lies in it, whole otherwise.
pub fn show_path(dir: &str, path: &str) -> (r: String)
    ensures
        r@ == shown(dir@, path@),
{
    let d = components(dir);
    let n = components(path);
    let p = chars_of(path);
    let list = split(&p);
    proof {
        lemma_parts(p@);
        assert(names(dir@).len() == d@.len());
        assert(names(path@).len() == n@.len());
        assert(parts(path@).len() == n@.len());
        assert(part_views(list@).len() == list@.len());
    }
    if d.len() > n.len() {
        return owned(path);
    }
    let mut i: usize = 0;
    while i < d.len()
        invariant
            i <= d@.len() <= n@.len(),
            names(dir@) == d@.map_values(|s: String| s@),
            names(path@) == n@.map_values(|s: String| s@),
            forall|k: int| 0 <= k < i ==> names(path@)[k] == names(dir@)[k],
        decreases d@.len() - i,
    {
        assert(names(path@)[i as int] == n@[i as int]@);
        assert(names(dir@)[i as int] == d@[i as int]@);
        if !same_text(d[i].as_str(), n[i].as_str()) {
            assert(names(path@).take(d@.len() as int)[i as int] != names(dir@)[i as int]);
            return owned(path);
        }
        i += 1;
    }
    assert(names(path@).take(d@.len() as int) =~= names(dir@));
    let k: usize = d.len();
    if k > 0 && k == list.len() {
        return String::new();
    }
    if list.len() == 0 {
        return owned(path);
    }
    let last: usize = list.len() - 1;
    assert(parts(path@)[last as int] == (list@[last as int].start as int, list@[last as int].end
        as int));
    let from: usize = if k == 0 {
        0
    } else {
        list[k].start
    };
    proof {
        if k > 0 {
            assert(parts(path@)[k as int] == (list@[k as int].start as int, list@[k as int].end
                as int));
            if k < last {
                assert(parts(path@)[k as int].1 <= parts(path@)[last as int].0);
            }
        }
    }
    text_of(&p, from, list[last].end)
}

/// Components moved behind a prefix of that length.
pub open spec fn moved(list: Seq<(int, int)>, n: int) -> Seq<(int, int)> {
    list.map_values(|r: (int, int)| (r.0 + n, r.1 + n))
}

/// Behind a prefix a path has the components that it has alone.
proof fn lemma_parts_tail(pre: Seq<char>, f: Seq<char>, i: int)
    requires
        pre.len() > 0,
        0 <= i <= f.len(),
        i == 0 && f.len() > 0 && f[0] == '.' ==> part_end(f, 0) > 1,
    ensures
        parts_from(pre + f, pre.len() + i) == moved(parts_from(f, i), pre.len() as int),
    decreases f.len() - i,
{
    let p = pre + f;
    let n = pre.len() as int;
    if i == f.len() {
        assert(parts_from(p, n + i) =~= moved(parts_from(f, i), n));
    } else {
        assert(p[n + i] == f[i]);
        if f[i] == '/' {
            lemma_parts_tail(pre, f, i + 1);
        } else {
            assert(p.skip(n + i) =~= f.skip(i));
            lemma_first_index_bounds(f.skip(i), '/');
            assert(f.skip(i)[0] == f[i]);
            let e = part_end(f, i);
            assert(part_end(p, n + i) == n + e);
            lemma_parts_tail(pre, f, e);
            assert(moved(seq![(i, e)] + parts_from(f, e), n) =~= seq![(n + i, n + e)] + moved(
                parts_from(f, e),
                n,
            ));
        }
    }
}

/// Up to a slash a path has the components of what stands before it.
proof fn lemma_parts_head(pre: Seq<char>, f: Seq<char>, i: int)
    requires
        pre.len() > 0,
        pre.last() == '/',
        0 <= i <= pre.len(),
    ensures
        parts_from(pre + f, i) == parts_from(pre, i) + parts_from(pre + f, pre.len() as int),
    decreases pre.len() - i,
{
    let p = pre + f;
    if i == pre.len() {
        assert(parts_from(pre, i) =~= Seq::empty());
        assert(parts_from(pre, i) + parts_from(p, i) =~= parts_from(p, i));
    } else {
        assert(p[i] == pre[i]);
        if pre[i] == '/' {
            lemma_parts_head(pre, f, i + 1);
        } else {
            let s = pre.skip(i);
            lemma_first_index_bounds(s, '/');
            assert(s[0] == pre[i]);
            let e = part_end(pre, i);
            assert(s[pre.len() - 1 - i] == '/');
            assert(e < pre.len());
            assert forall|j: int| 0 <= j < e - i implies p.skip(i)[j] != '/' by {
                assert(p.skip(i)[j] == s[j]);
            }
            assert(p.skip(i)[e - i] == s[e - i]);
            crate::text::lemma_first_index(p.skip(i), '/', e - i);
            lemma_parts_head(pre, f, e);
            assert((seq![(i, e)] + parts_from(pre, e)) + parts_from(p, pre.len() as int)
                =~= seq![(i, e)] + (parts_from(pre, e) + parts_from(p, pre.len() as int)));
        }
    }
}

/// A slash at the end of a path says nothing.
proof fn lemma_parts_slash(d: Seq<char>, i: int)
    requires
        0 <= i <= d.len(),
    ensures
        parts_from(d.push('/'), i) == parts_from(d, i),
    decreases d.len() - i,
{
    let p = d.push('/');
    if i == d.len() {
        assert(p[i] == '/');
        assert(parts_from(p, i + 1) =~= Seq::empty());
        assert(parts_from(d, i) =~= Seq::empty());
    } else {
        assert(p[i] == d[i]);
        if d[i] == '/' {
            lemma_parts_slash(d, i + 1);
        } else {
            let s = d.skip(i);
            lemma_first_index_bounds(s, '/');
            assert(s[0] == d[i]);
            let e = part_end(d, i);
            assert forall|j: int| 0 <= j < e - i implies p.skip(i)[j] != '/' by {
                assert(p.skip(i)[j] == s[j]);
            }
            if e < d.len() {
                assert(p.skip(i)[e - i] == s[e - i]);
            } else {
                assert(p.skip(i)[e - i] == '/');
            }
            crate::text::lemma_first_index(p.skip(i), '/', e - i);
            lemma_parts_slash(d, e);
        }
    }
}

/// Whether a file's name is plain: relative, not led by `.`, and without a slash
/// or a `.` at its end.
pub open spec fn plain_name(file: Seq<char>) -> bool {
    let list = parts_from(file, 0);
    &&& list.len() > 0
    &&& list[0].0 == 0
    &&& list.last().1 == file.len()
    &&& file[0] == '.' ==> list[0].1 > 1
}

/// A file that is named relative to the workspace is shown by that name.
pub proof fn lemma_shown_relative(dir: Seq<char>, file: Seq<char>)
    requires
        plain_name(file),
    ensures
        shown(dir, joined(dir, file)) == file,
{
    let p = joined(dir, file);
    let list = parts_from(file, 0);
    lemma_parts_from(file, 0);
    assert(file[0] != '/') by {
        if file[0] == '/' {
            lemma_parts_from(file, 1);
            assert(list == parts_from(file, 1));
        }
    }
    assert(list[0] == (0int, part_end(file, 0)));
    if dir.len() == 0 {
        assert(p =~= file);
        assert(parts(dir) =~= Seq::empty());
        assert(names(dir) =~= Seq::empty());
        assert(names(p).take(0) =~= names(dir));
        assert(p.subrange(0, p.len() as int) =~= p);
    } else {
        let pre = if dir.last() == '/' {
            dir
        } else {
            dir.push('/')
        };
        let n = pre.len() as int;
        assert(p =~= pre + file);
        assert(p[0] == dir[0] && pre[0] == dir[0]);
        lemma_parts_tail(pre, file, 0);
        let from = if dir[0] == '/' {
            1int
        } else {
            0int
        };
        lemma_parts_head(pre, file, from);
        if dir.last() != '/' {
            lemma_parts_slash(dir, from);
        }
        lemma_parts(dir);
        let k = parts(dir).len() as int;
        assert(parts(p) =~= parts(dir) + moved(list, n));
        assert(names(p).take(k) =~= names(dir)) by {
            assert forall|q: int| 0 <= q < k implies names(p)[q] == names(dir)[q] by {
                let r = parts(dir)[q];
                assert(parts(p)[q] == r);
                assert(p.subrange(r.0, r.1) =~= dir.subrange(r.0, r.1));
            }
        }
        assert(k > 0) by {
            if dir[0] != '/' {
                let e = part_end(dir, 0);
                assert(parts(dir) == seq![(0int, e)] + parts_from(dir, e));
            }
        }
        assert(parts(p)[k] == moved(list, n)[0]);
        assert(parts(p).last() == moved(list, n).last());
        assert(moved(list, n).last() == (list.last().0 + n, list.last().1 + n));
        assert(p.subrange(n, n + file.len()) =~= file);
    }
}

// ---------------------------------------------------------------------------
// Languages
// ---------------------------------------------------------------------------

/// Where `c` last stands in `s`, counted from one; zero where it does not occur.
pub open spec fn last_place(s: Seq<char>, c: char) -> nat
    decreases s.len(),
{
    if s.len() == 0 {
        0
    } else if s.last() == c {
        s.len()
    } else {
        last_place(s.drop_last(), c)
    }
}

/// The extension of a file's name: what stands behind its last dot, unless that
/// dot begins the name.
pub open spec fn extension(p: Seq<char>) -> Seq<char> {
    let all = names(p);
    if all.len() == 0 || name_rank(all.last()) != 3 || last_place(all.last(), '.') <= 1 {
        Seq::empty()
    } else {
        all.last().skip(last_place(all.last(), '.') as int)
    }
}

/// The protocol's name for the language of a file with that extension.
pub open spec fn language_of(ext: Seq<char>) -> Seq<char> {
    if ext == "py"@ || ext == "pyi"@ {
        "python"@
    } else if ext == "go"@ {
        "go"@
    } else if ext == "rs"@ {
        "rust"@
    } else if ext == "ts"@ {
        "typescript"@
    } else if ext == "tsx"@ {
        "typescriptreact"@
    } else if ext == "js"@ || ext == "mjs"@ || ext == "cjs"@ {
        "javascript"@
    } else if ext == "jsx"@ {
        "javascriptreact"@
    } else {
        "plaintext"@
    }
}

fn extension_text(path: &str) -> (r: String)
    ensures
        r@ == extension(path@),
{
    let all = components(path);
    assert(names(path@).len() == all@.len());
    if all.len() == 0 {
        return String::new();
    }
    let last: &String = &all[all.len() - 1];
    assert(names(path@).last() == last@);
    if rank(last.as_str()) != 3 {
        return String::new();
    }
    let n = chars_of(last.as_str());
    let mut k: usize = n.len();
    assert(n@.take(k as int) =~= n@);
    while k > 0 && n[k - 1] != '.'
        invariant
            k <= n@.len(),
            last_place(n@.take(k as int), '.') == last_place(n@, '.'),
        decreases k,
    {
        assert(n@.take(k as int).drop_last() =~= n@.take(k - 1));
        k -= 1;
    }
    if k <= 1 {
        return String::new();
    }
    assert(n@.subrange(k as int, n@.len() as int) =~= n@.skip(k as int));
    text_of(&n, k, n.len())
}

/// The language of a file, from its extension.
pub fn language_id(path: &str) -> (r: &'static str)
    ensures
        r@ == language_of(extension(path@)),
{
    let ext = extension_text(path);
    let e: &str = ext.as_str();
    if same_text(e, "py") || same_text(e, "pyi") {
        "python"
    } else if same_text(e, "go") {
        "go"
    } else if same_text(e, "rs") {
        "rust"
    } else if same_text(e, "ts") {
        "typescript"
    } else if same_text(e, "tsx") {
        "typescriptreact"
    } else if same_text(e, "js") || same_text(e, "mjs") || same_text(e, "cjs") {
        "javascript"
    } else if same_text(e, "jsx") {
        "javascriptreact"
    } else {
        "plaintext"
    }
}

// ---------------------------------------------------------------------------
// What holds of paths and languages
// ---------------------------------------------------------------------------

/// Two paths are ordered by the first component in which they differ, a directory
/// before what is in it; and names are ordered as texts.
pub proof fn lemma_names_first_difference(
    common: Seq<Seq<char>>,
    a: Seq<char>,
    b: Seq<char>,
    x: Seq<Seq<char>>,
    y: Seq<Seq<char>>,
)
    requires
        a != "/"@ && a != "."@ && a != ".."@,
        b != "/"@ && b != "."@ && b != ".."@,
    ensures
        a != b ==> (names_less(common + seq![a] + x, common + seq![b] + y) <==> text_less(a, b)),
        names_less(common, common + seq![a] + x),
    decreases common.len(),
{
    let s = common + seq![a] + x;
    let t = common + seq![b] + y;
    if common.len() > 0 {
        let c = common.drop_first();
        assert(s.drop_first() =~= c + seq![a] + x);
        assert(t.drop_first() =~= c + seq![b] + y);
        lemma_names_first_difference(c, a, b, x, y);
    }
}

/// A file that is named absolutely is that file, wherever the workspace is; any other
/// is named behind the workspace.
pub proof fn lemma_joined(dir: Seq<char>, file: Seq<char>)
    ensures
        file.len() > 0 && file[0] == '/' ==> joined(dir, file) == file,
        dir.len() > 0 && dir.last() != '/' && (file.len() == 0 || file[0] != '/') ==> joined(
            dir,
            file,
        ) == dir + seq!['/'] + file && joined(dir.push('/'), file) == joined(dir, file),
{
    assert(dir.push('/') + file =~= dir + seq!['/'] + file);
}

/// A file outside the workspace is shown by its full path.
pub proof fn lemma_outside_is_shown_whole(dir: Seq<char>, p: Seq<char>, k: int)
    requires
        0 <= k < names(dir).len(),
        k >= names(p).len() || names(p)[k] != names(dir)[k],
    ensures
        shown(dir, p) == p,
{
    if names(dir).len() <= names(p).len() {
        assert(names(p).take(names(dir).len() as int)[k] == names(p)[k]);
    }
}

proof fn lemma_last_place(s: Seq<char>, t: Seq<char>)
    requires
        !t.contains('.'),
    ensures
        last_place(s.push('.') + t, '.') == s.len() + 1,
    decreases t.len(),
{
    let all = s.push('.') + t;
    if t.len() > 0 {
        assert(t.contains(t.last()));
        let less = t.drop_last();
        assert forall|c: char| less.contains(c) implies t.contains(c) by {
            let i = choose|i: int| 0 <= i < less.len() && less[i] == c;
            assert(t[i] == c);
        }
        assert(all.drop_last() =~= s.push('.') + less);
        lemma_last_place(s, less);
    } else {
        assert(all =~= s.push('.'));
    }
}

/// The extension of a file is what stands behind the last dot of its name, whatever
/// directory it is in.
pub proof fn lemma_extension(dir: Seq<char>, stem: Seq<char>, ext: Seq<char>)
    requires
        stem.len() > 0,
        !stem.contains('/'),
        !ext.contains('/'),
        !ext.contains('.'),
        ext.len() > 0,
    ensures
        extension(dir + seq!['/'] + stem + seq!['.'] + ext) == ext,
{
    let pre = dir.push('/');
    let f = stem.push('.') + ext;
    let p = pre + f;
    let n = pre.len() as int;
    assert(dir + seq!['/'] + stem + seq!['.'] + ext =~= p);
    assert forall|j: int| 0 <= j < f.len() implies f[j] != '/' by {
        if j < stem.len() {
            assert(stem.contains(stem[j]));
        } else if j > stem.len() {
            assert(ext.contains(ext[j - stem.len() - 1]));
        }
    }
    lemma_first_index_bounds(f.skip(0), '/');
    assert(f.skip(0) =~= f);
    assert(part_end(f, 0) == f.len());
    assert(parts_from(f, f.len() as int) =~= Seq::empty());
    assert(parts_from(f, 0) =~= seq![(0int, f.len() as int)]);
    lemma_parts_tail(pre, f, 0);
    let from = if pre[0] == '/' {
        1int
    } else {
        0int
    };
    assert(p[0] == pre[0]);
    lemma_parts_head(pre, f, from);
    assert(moved(parts_from(f, 0), n) =~= seq![(n, n + f.len())]);
    assert(parts(p).last() == (n, n + f.len()));
    assert(p.subrange(n, n + f.len()) =~= f);
    assert(names(p).last() == f);
    reveal_strlit("/");
    reveal_strlit(".");
    reveal_strlit("..");
    assert("/"@.len() == 1);
    assert("."@.len() == 1);
    assert(".."@.len() == 2);
    assert("/"@.len() == 1 && "."@.len() == 1 && ".."@.len() == 2);
    assert(f.len() >= 3);
    lemma_last_place(stem, ext);
    assert(f.skip(stem.len() as int + 1) =~= ext);
}

/// Every file with one of the extensions below is of the language that the protocol
/// has for it, and a file with another is plain text.
pub proof fn lemma_languages(dir: Seq<char>, stem: Seq<char>, ext: Seq<char>)
    requires
        stem.len() > 0,
        !stem.contains('/'),
        !ext.contains('/'),
        !ext.contains('.'),
        ext.len() > 0,
    ensures
        ({
            let language = language_of(extension(dir + seq!['/'] + stem + seq!['.'] + ext));
            &&& ext == "py"@ || ext == "pyi"@ ==> language == "python"@
            &&& ext == "rs"@ ==> language == "rust"@
            &&& ext == "go"@ ==> language == "go"@
            &&& ext == "ts"@ ==> language == "typescript"@
            &&& ext == "tsx"@ ==> language == "typescriptreact"@
            &&& ext == "js"@ || ext == "mjs"@ || ext == "cjs"@ ==> language == "javascript"@
            &&& ext == "jsx"@ ==> language == "javascriptreact"@
            &&& ext.len() > 3 ==> language == "plaintext"@
        }),
{
    lemma_extension(dir, stem, ext);
    reveal_strlit("py");
    reveal_strlit("pyi");
    reveal_strlit("rs");
    reveal_strlit("go");
    reveal_strlit("ts");
    reveal_strlit("tsx");
    reveal_strlit("js");
    reveal_strlit("mjs");
    reveal_strlit("cjs");
    reveal_strlit("jsx");
    assert("py"@.len() == 2);
    assert("pyi"@.len() == 3);
    assert("rs"@.len() == 2);
    assert("go"@.len() == 2);
    assert("ts"@.len() == 2);
    assert("tsx"@.len() == 3);
    assert("js"@.len() == 2);
    assert("mjs"@.len() == 3);
    assert("cjs"@.len() == 3);
    assert("jsx"@.len() == 3);
    assert("py"@[0] == 'p' && "rs"@[0] == 'r' && "go"@[0] == 'g' && "ts"@[0] == 't' && "js"@[0]
        == 'j');
    assert("pyi"@[0] == 'p' && "tsx"@[0] == 't' && "mjs"@[0] == 'm' && "cjs"@[0] == 'c'
        && "jsx"@[0] == 'j');
}

/// A slash at the end of a path says nothing of it.
pub proof fn lemma_final_slash(d: Seq<char>)
    requires
        d.len() > 0,
    ensures
        names(d.push('/')) == names(d),
{
    let p = d.push('/');
    assert(p[0] == d[0]);
    lemma_parts_slash(d, 0);
    lemma_parts_slash(d, 1);
    lemma_parts(d);
    assert(parts(p) == parts(d));
    assert forall|k: int| 0 <= k < parts(d).len() implies names(p)[k] == names(d)[k] by {
        let r = parts(d)[k];
        assert(p.subrange(r.0, r.1) =~= d.subrange(r.0, r.1));
    }
    assert(names(p) =~= names(d));
}

} // verus!
