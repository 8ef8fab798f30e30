//! Unix path text: its components, depth and equality, and the parts of a file name.

use vstd::prelude::*;
use vstd::string::*;
use crate::text::{
    all_digits, decimal, digits_value, lemma_decimal_digits, lemma_decimal_injective,
    lemma_decimal_no_leading_zero, push_decimal,
};

verus! {

/// A piece between separators that names something: not empty and not `.`.
pub open spec fn kept_segment(seg: Seq<char>) -> bool {
    seg.len() > 0 && seg != seq!['.']
}

/// Scanning `p` from the left: the kept pieces already closed by a `/`, and the open piece
/// after the last `/`.
pub open spec fn scan_segments(p: Seq<char>) -> (Seq<Seq<char>>, Seq<char>)
    decreases p.len(),
{
    if p.len() == 0 {
        (Seq::empty(), Seq::empty())
    } else {
        let (done, open) = scan_segments(p.drop_last());
        if p.last() == '/' {
            (if kept_segment(open) {
                done.push(open)
            } else {
                done
            }, Seq::empty())
        } else {
            (done, open.push(p.last()))
        }
    }
}

/// The named pieces of `p`, in order: `..` and ordinary names, without empty pieces or `.`.
pub open spec fn body_components(p: Seq<char>) -> Seq<Seq<char>> {
    let (done, open) = scan_segments(p);
    if kept_segment(open) {
        done.push(open)
    } else {
        done
    }
}

/// The path starts at the root.
pub open spec fn has_root(p: Seq<char>) -> bool {
    p.len() > 0 && p[0] == '/'
}

/// The relative path starts with a `.` piece (`.` itself or `./...`).
pub open spec fn starts_with_cur_dir(p: Seq<char>) -> bool {
    &&& p.len() > 0
    &&& p[0] == '.'
    &&& (p.len() == 1 || p[1] == '/')
}

/// The components of a Unix path, as `Path::components` yields them, each written as text:
/// `/` for the root, `.` for a leading current directory, `..` for a parent, else the name.
/// Repeated separators, a trailing separator and inner `.` pieces yield nothing.
pub open spec fn path_components(p: Seq<char>) -> Seq<Seq<char>> {
    if has_root(p) {
        seq![seq!['/']] + body_components(p)
    } else if starts_with_cur_dir(p) {
        seq![seq!['.']] + body_components(p)
    } else {
        body_components(p)
    }
}

/// Two paths name the same place in the sense of `Path`'s `==`: equal components.
pub open spec fn same_path(a: Seq<char>, b: Seq<char>) -> bool {
    path_components(a) == path_components(b)
}

/// The number of components of a path (`path.components().count()`).
pub open spec fn path_depth(p: Seq<char>) -> nat {
    path_components(p).len()
}

proof fn lemma_kept_segment_test(seg: Seq<char>)
    ensures
        kept_segment(seg) == (seg.len() > 0 && !(seg.len() == 1 && seg[0] == '.')),
{
    if seg.len() == 1 && seg[0] == '.' {
        assert(seg =~= seq!['.']);
    }
}

/// The components of the path text `p`, each as a `String`.
pub fn components(p: &str) -> (r: Vec<String>)
    ensures
        r.deep_view() == path_components(p@),
{
    let n = p.unicode_len();
    let mut out: Vec<String> = Vec::new();
    let root = n > 0 && p.get_char(0) == '/';
    let cur = !root && n > 0 && p.get_char(0) == '.' && (n == 1 || p.get_char(1) == '/');
    proof {
        reveal_strlit("/");
        reveal_strlit(".");
    }
    if root {
        let piece = "/".to_owned();
        assert(piece@ =~= seq!['/']);
        out.push(piece);
        assert(out.deep_view()[0] == out@[0]@);
        assert(out.deep_view() =~= seq![seq!['/']]);
    } else if cur {
        let piece = ".".to_owned();
        assert(piece@ =~= seq!['.']);
        out.push(piece);
        assert(out.deep_view()[0] == out@[0]@);
        assert(out.deep_view() =~= seq![seq!['.']]);
    } else {
        assert(out.deep_view() =~= Seq::<Seq<char>>::empty());
    }
    let ghost prefix = out.deep_view();
    assert(p@.take(0) =~= Seq::<char>::empty());
    let mut start: usize = 0;
    let mut i: usize = 0;
    while i < n
        invariant
            n == p@.len(),
            start <= i <= n,
            scan_segments(p@.take(i as int)).0 == out.deep_view().skip(prefix.len() as int),
            scan_segments(p@.take(i as int)).1 == p@.subrange(start as int, i as int),
            prefix.len() <= out.deep_view().len(),
            out.deep_view().take(prefix.len() as int) == prefix,
        decreases n - i,
    {
        let c = p.get_char(i);
        let ghost before = out.deep_view();
        assert(p@.take((i + 1) as int).drop_last() =~= p@.take(i as int));
        assert(p@.take((i + 1) as int).last() == c);
        if c == '/' {
            let ghost open = p@.subrange(start as int, i as int);
            proof {
                lemma_kept_segment_test(open);
            }
            if start < i && !(i - start == 1 && p.get_char(start) == '.') {
                let piece = p.substring_char(start, i).to_owned();
                out.push(piece);
                assert(out.deep_view() =~= before.push(open));
                assert(out.deep_view().skip(prefix.len() as int) =~= before.skip(
                    prefix.len() as int,
                ).push(open));
                assert(out.deep_view().take(prefix.len() as int) =~= before.take(
                    prefix.len() as int,
                ));
            }
            start = i + 1;
            assert(p@.subrange(start as int, (i + 1) as int) =~= Seq::<char>::empty());
        } else {
            assert(p@.subrange(start as int, (i + 1) as int) =~= p@.subrange(
                start as int,
                i as int,
            ).push(c));
        }
        i = i + 1;
    }
    assert(p@.take(n as int) =~= p@);
    let ghost before = out.deep_view();
    let ghost open = p@.subrange(start as int, n as int);
    proof {
        lemma_kept_segment_test(open);
    }
    if start < n && !(n - start == 1 && p.get_char(start) == '.') {
        let piece = p.substring_char(start, n).to_owned();
        out.push(piece);
        assert(out.deep_view() =~= before.push(open));
        assert(out.deep_view().skip(prefix.len() as int) =~= before.skip(prefix.len() as int).push(
            open,
        ));
        assert(out.deep_view().take(prefix.len() as int) =~= before.take(prefix.len() as int));
    }
    assert(out.deep_view() =~= prefix + out.deep_view().skip(prefix.len() as int));
    assert(body_components(p@) == out.deep_view().skip(prefix.len() as int));
    proof {
        if root {
            assert(prefix =~= seq![seq!['/']]);
        } else if cur {
            assert(prefix =~= seq![seq!['.']]);
        } else {
            assert(prefix =~= Seq::<Seq<char>>::empty());
        }
    }
    out
}

/// The number of components of the path text `p`.
pub fn depth(p: &str) -> (d: usize)
    ensures
        d == path_depth(p@),
{
    let c = components(p);
    c.len()
}

/// Whether two path texts have the same components (`Path`'s `==`).
pub fn is_same_path(a: &str, b: &str) -> (r: bool)
    ensures
        r == same_path(a@, b@),
{
    let ca = components(a);
    let cb = components(b);
    if ca.len() != cb.len() {
        assert(ca.deep_view().len() != cb.deep_view().len());
        return false;
    }
    let mut k: usize = 0;
    while k < ca.len()
        invariant
            ca.len() == cb.len(),
            ca.deep_view() == path_components(a@),
            cb.deep_view() == path_components(b@),
            k <= ca.len(),
            forall|j: int| 0 <= j < k ==> ca.deep_view()[j] == cb.deep_view()[j],
        decreases ca.len() - k,
    {
        if ca[k] != cb[k] {
            assert(ca.deep_view()[k as int] != cb.deep_view()[k as int]);
            return false;
        }
        k = k + 1;
    }
    assert(ca.deep_view() =~= cb.deep_view());
    true
}

/// A component that is an ordinary name (not the root, `.` or `..`).
pub open spec fn is_normal_component(c: Seq<char>) -> bool {
    c != seq!['/'] && c != seq!['.'] && c != seq!['.', '.']
}

/// The final component of a path when it is an ordinary name (`Path::file_name`).
pub open spec fn file_name(p: Seq<char>) -> Option<Seq<char>> {
    let c = path_components(p);
    if c.len() > 0 && is_normal_component(c.last()) {
        Some(c.last())
    } else {
        None
    }
}

/// The index of the last `.` in `s`, or -1.
pub open spec fn last_dot(s: Seq<char>) -> int
    decreases s.len(),
{
    if s.len() == 0 {
        -1
    } else if s.last() == '.' {
        s.len() - 1
    } else {
        last_dot(s.drop_last())
    }
}

/// A file name split at its last `.`, as `Path::file_stem` and `Path::extension` split it: no
/// extension when there is no `.` or when the only `.` leads the name.
pub open spec fn split_at_last_dot(name: Seq<char>) -> (Seq<char>, Option<Seq<char>>) {
    let k = last_dot(name);
    if k <= 0 {
        (name, None)
    } else {
        (name.take(k), Some(name.skip(k + 1)))
    }
}

/// The stem and extension used to number a file name: the stem falls back to `file` and the
/// extension to the empty text when the path has none.
pub open spec fn stem_and_extension(filename: Seq<char>) -> (Seq<char>, Seq<char>) {
    match file_name(filename) {
        None => (seq!['f', 'i', 'l', 'e'], Seq::empty()),
        Some(n) => {
            let (s, e) = split_at_last_dot(n);
            (
                s,
                match e {
                    Some(x) => x,
                    None => Seq::empty(),
                },
            )
        },
    }
}

proof fn lemma_last_dot(s: Seq<char>)
    ensures
        -1 <= last_dot(s) < s.len(),
        last_dot(s) >= 0 ==> s[last_dot(s)] == '.',
    decreases s.len(),
{
    if s.len() > 0 && s.last() != '.' {
        lemma_last_dot(s.drop_last());
    }
}

fn find_last_dot(s: &str) -> (k: Option<usize>)
    ensures
        match k {
            None => last_dot(s@) == -1,
            Some(i) => last_dot(s@) == i,
        },
{
    let n = s.unicode_len();
    let mut i = n;
    assert(s@.take(n as int) =~= s@);
    while i > 0
        invariant
            i <= n == s@.len(),
            last_dot(s@) == last_dot(s@.take(i as int)),
        decreases i,
    {
        assert(s@.take(i as int).drop_last() =~= s@.take(i - 1));
        if s.get_char(i - 1) == '.' {
            return Some(i - 1);
        }
        i = i - 1;
    }
    None
}

/// The stem and extension of a file name for numbering: `(stem, extension)`, where the stem is
/// `Path::file_stem` or `file`, and the extension is `Path::extension` or empty.
pub fn split_file_name(filename: &str) -> (r: (String, String))
    ensures
        (r.0@, r.1@) == stem_and_extension(filename@),
{
    let comps = components(filename);
    let count = comps.len();
    proof {
        reveal_strlit("file");
        reveal_strlit("");
        reveal_strlit("/");
        reveal_strlit(".");
        reveal_strlit("..");
    }
    assert("file"@ =~= seq!['f', 'i', 'l', 'e']);
    assert(""@ =~= Seq::<char>::empty());
    if count == 0 {
        assert(path_components(filename@).len() == 0);
        return ("file".to_owned(), "".to_owned());
    }
    let last = &comps[count - 1];
    let lv = last.as_str();
    assert(lv@ == comps.deep_view()[count - 1]);
    assert(lv@ == path_components(filename@).last());
    let slash = "/".to_owned();
    let dot = ".".to_owned();
    let dotdot = "..".to_owned();
    assert(slash@ =~= seq!['/']);
    assert(dot@ =~= seq!['.']);
    assert(dotdot@ =~= seq!['.', '.']);
    if *last == slash || *last == dot || *last == dotdot {
        return ("file".to_owned(), "".to_owned());
    }
    assert(file_name(filename@) == Some(lv@));
    proof {
        lemma_last_dot(lv@);
    }
    match find_last_dot(lv) {
        None => (lv.to_owned(), "".to_owned()),
        Some(k) => {
            if k == 0 {
                (lv.to_owned(), "".to_owned())
            } else {
                let n = lv.unicode_len();
                let stem = lv.substring_char(0, k).to_owned();
                let ext = lv.substring_char(k + 1, n).to_owned();
                assert(lv@.subrange(0, k as int) =~= lv@.take(k as int));
                assert(lv@.subrange(k + 1, n as int) =~= lv@.skip(k + 1));
                (stem, ext)
            }
        },
    }
}

/// The numbered name for a taken file name: `stem (i)`, followed by `.ext` when the
/// extension is not empty.
pub open spec fn numbered_name(stem: Seq<char>, ext: Seq<char>, i: nat) -> Seq<char> {
    stem + seq![' ', '('] + decimal(i) + seq![')'] + if ext.len() == 0 {
        Seq::empty()
    } else {
        seq!['.'] + ext
    }
}

/// `format!("{stem} ({i})")`, or `format!("{stem} ({i}).{ext}")` when `ext` is not empty.
pub fn numbered(stem: &str, ext: &str, i: u64) -> (r: String)
    ensures
        r@ == numbered_name(stem@, ext@, i as nat),
{
    proof {
        reveal_strlit(" (");
        reveal_strlit(")");
        reveal_strlit(".");
    }
    let mut s = stem.to_owned();
    s.append(" (");
    push_decimal(&mut s, i);
    s.append(")");
    if ext.unicode_len() != 0 {
        s.append(".");
        s.append(ext);
    }
    assert(s@ =~= numbered_name(stem@, ext@, i as nat));
    s
}

/// Different numbers give different names for the same stem and extension, so a search
/// through the numbers meets every free name.
pub proof fn law_numbered_names_distinct(stem: Seq<char>, ext: Seq<char>, i: nat, j: nat)
    requires
        i != j,
    ensures
        numbered_name(stem, ext, i) != numbered_name(stem, ext, j),
{
    let tail = if ext.len() == 0 {
        Seq::<char>::empty()
    } else {
        seq!['.'] + ext
    };
    let head = stem + seq![' ', '('];
    let a = numbered_name(stem, ext, i);
    let b = numbered_name(stem, ext, j);
    if a == b {
        assert(a =~= head + decimal(i) + (seq![')'] + tail));
        assert(b =~= head + decimal(j) + (seq![')'] + tail));
        assert(decimal(i).len() == decimal(j).len());
        assert(decimal(i) =~= a.subrange(head.len() as int, (head.len() + decimal(i).len()) as int));
        assert(decimal(j) =~= b.subrange(head.len() as int, (head.len() + decimal(j).len()) as int));
        lemma_decimal_injective(i, j);
    }
}

/// No `/` in the text.
pub open spec fn no_slash(s: Seq<char>) -> bool {
    forall|k: int| 0 <= k < s.len() ==> #[trigger] s[k] != '/'
}

/// No `.` in the text.
pub open spec fn no_dot(s: Seq<char>) -> bool {
    forall|k: int| 0 <= k < s.len() ==> #[trigger] s[k] != '.'
}

proof fn lemma_scan_no_slash(x: Seq<char>, y: Seq<char>)
    requires
        no_slash(y),
    ensures
        scan_segments(x + y) == (scan_segments(x).0, scan_segments(x).1 + y),
    decreases y.len(),
{
    if y.len() == 0 {
        assert(x + y =~= x);
        assert(scan_segments(x).1 + y =~= scan_segments(x).1);
    } else {
        let y0 = y.drop_last();
        assert(no_slash(y0)) by {
            assert forall|k: int| 0 <= k < y0.len() implies #[trigger] y0[k] != '/' by {
                assert(y0[k] == y[k]);
            }
        }
        lemma_scan_no_slash(x, y0);
        assert((x + y).drop_last() =~= x + y0);
        assert((x + y).last() == y[y.len() - 1]);
        assert(y[y.len() - 1] != '/');
        assert((scan_segments(x).1 + y0).push(y.last()) =~= scan_segments(x).1 + y);
    }
}

/// A text without `/` that names something (not empty, not `.`, not `..`) is a path of that
/// one component, and it is the path's file name.
pub proof fn lemma_single_component(name: Seq<char>)
    requires
        no_slash(name),
        kept_segment(name),
        name != seq!['.', '.'],
    ensures
        path_components(name) == seq![name],
        file_name(name) == Some(name),
{
    assert(name[0] != '/');
    if starts_with_cur_dir(name) {
        assert(name.len() != 1 || name =~= seq!['.']);
        assert(name[1] != '/');
    }
    lemma_scan_no_slash(Seq::empty(), name);
    assert(Seq::<char>::empty() + name =~= name);
    assert(Seq::<Seq<char>>::empty().push(name) =~= seq![name]);
    if name == seq!['/'] {
        assert(name[0] == '/');
    }
}

/// Appending `/` and a name (a piece without `/`, not empty and not `.`) to a non-empty path
/// appends that name to the path's components.
pub proof fn lemma_components_extend(p: Seq<char>, name: Seq<char>)
    requires
        p.len() > 0,
        no_slash(name),
        kept_segment(name),
    ensures
        path_components(p + seq!['/'] + name) == path_components(p).push(name),
{
    let q = p + seq!['/'];
    let r = q + name;
    assert(q.drop_last() =~= p);
    assert(q.last() == '/');
    assert(scan_segments(q) == (body_components(p), Seq::<char>::empty()));
    lemma_scan_no_slash(q, name);
    assert(Seq::<char>::empty() + name =~= name);
    assert(body_components(r) == body_components(p).push(name));
    assert(r[0] == p[0]);
    if p.len() >= 2 {
        assert(r[1] == p[1]);
    } else {
        assert(r[1] == '/');
    }
    assert(has_root(r) == has_root(p));
    assert(starts_with_cur_dir(r) == starts_with_cur_dir(p));
    if has_root(p) {
        assert(seq![seq!['/']] + body_components(p).push(name) =~= (seq![seq!['/']]
            + body_components(p)).push(name));
    } else if starts_with_cur_dir(p) {
        assert(seq![seq!['.']] + body_components(p).push(name) =~= (seq![seq!['.']]
            + body_components(p)).push(name));
    }
}

/// Two paths are the same exactly when they have as many components and agree at every
/// position, the first, the last and every one between.
pub proof fn law_same_path_compares_every_component(a: Seq<char>, b: Seq<char>)
    ensures
        same_path(a, b) <==> (path_components(a).len() == path_components(b).len() && forall|k: int|
            0 <= k < path_components(a).len() ==> #[trigger] path_components(a)[k]
                == path_components(b)[k]),
{
    if path_components(a).len() == path_components(b).len() && forall|k: int|
        0 <= k < path_components(a).len() ==> #[trigger] path_components(a)[k]
            == path_components(b)[k] {
        assert(path_components(a) =~= path_components(b));
    }
}

/// Directories that differ in a middle component are different directories: `p/a/c` and
/// `p/b/c` are the same only when `a == b`.
pub proof fn law_paths_differing_inside_differ(
    p: Seq<char>,
    a: Seq<char>,
    b: Seq<char>,
    c: Seq<char>,
)
    requires
        p.len() > 0,
        no_slash(a),
        no_slash(b),
        no_slash(c),
        kept_segment(a),
        kept_segment(b),
        kept_segment(c),
    ensures
        same_path(p + seq!['/'] + a + seq!['/'] + c, p + seq!['/'] + b + seq!['/'] + c) <==> a == b,
{
    lemma_components_extend(p, a);
    lemma_components_extend(p, b);
    lemma_components_extend(p + seq!['/'] + a, c);
    lemma_components_extend(p + seq!['/'] + b, c);
    let n = path_components(p).len();
    let ca = path_components(p + seq!['/'] + a + seq!['/'] + c);
    let cb = path_components(p + seq!['/'] + b + seq!['/'] + c);
    assert(ca[n as int] == a);
    assert(cb[n as int] == b);
    if a == b {
        assert(ca =~= cb);
    }
}

/// A child directory is one component deeper than its parent, however deep the parent is,
/// and is a different directory.
pub proof fn law_child_is_one_deeper(p: Seq<char>, name: Seq<char>)
    requires
        p.len() > 0,
        no_slash(name),
        kept_segment(name),
    ensures
        path_depth(p + seq!['/'] + name) == path_depth(p) + 1,
        path_depth(p) == path_components(p).len(),
        !same_path(p, p + seq!['/'] + name),
{
    lemma_components_extend(p, name);
}

proof fn lemma_last_dot_append(x: Seq<char>, y: Seq<char>)
    requires
        no_dot(y),
    ensures
        last_dot(x + y) == last_dot(x),
    decreases y.len(),
{
    if y.len() == 0 {
        assert(x + y =~= x);
    } else {
        let y0 = y.drop_last();
        assert(no_dot(y0)) by {
            assert forall|k: int| 0 <= k < y0.len() implies #[trigger] y0[k] != '.' by {
                assert(y0[k] == y[k]);
            }
        }
        assert((x + y).drop_last() =~= x + y0);
        assert((x + y).last() == y[y.len() - 1]);
        assert(y[y.len() - 1] != '.');
        lemma_last_dot_append(x, y0);
    }
}

/// A name is split at its last `.` whatever the length of what follows: `s.e` (with `s` not
/// empty and `e` free of `.`) has stem `s` and extension `e`, as `Path::file_stem` and
/// `Path::extension` give them.
pub proof fn law_split_at_last_dot(s: Seq<char>, e: Seq<char>)
    requires
        s.len() > 0,
        no_slash(s),
        no_slash(e),
        no_dot(e),
        s + seq!['.'] + e != seq!['.', '.'],
    ensures
        stem_and_extension(s + seq!['.'] + e) == (s, e),
{
    let name = s + seq!['.'] + e;
    assert(no_slash(name)) by {
        assert forall|k: int| 0 <= k < name.len() implies #[trigger] name[k] != '/' by {
            if k < s.len() {
                assert(name[k] == s[k]);
            } else if k > s.len() {
                assert(name[k] == e[k - s.len() - 1]);
            }
        }
    }
    if name == seq!['.'] {
        assert(name.len() == 1);
    }
    lemma_single_component(name);
    lemma_last_dot_append(s + seq!['.'], e);
    assert((s + seq!['.']).drop_last() =~= s);
    assert(last_dot(name) == s.len());
    assert(name.take(s.len() as int) =~= s);
    assert(name.skip((s.len() + 1) as int) =~= e);
}

/// A name without any `.` (and without `/`) is all stem, with an empty extension.
pub proof fn law_name_without_dot(name: Seq<char>)
    requires
        name.len() > 0,
        no_slash(name),
        no_dot(name),
    ensures
        stem_and_extension(name) == (name, Seq::<char>::empty()),
{
    assert(name[0] != '.');
    if name == seq!['.'] || name == seq!['.', '.'] {
        assert(name[0] == '.');
    }
    lemma_single_component(name);
    lemma_last_dot_append(Seq::empty(), name);
    assert(Seq::<char>::empty() + name =~= name);
}

proof fn lemma_prefix_kept(p: Seq<char>, r: Seq<char>)
    requires
        p.len() > 0,
        r.len() > p.len(),
        r.take(p.len() as int) == p,
        r[p.len() as int] == '/',
    ensures
        has_root(r) == has_root(p),
        starts_with_cur_dir(r) == starts_with_cur_dir(p),
{
    assert(r[0] == r.take(p.len() as int)[0]);
    if p.len() >= 2 {
        assert(r[1] == r.take(p.len() as int)[1]);
    }
}

/// A trailing `/` does not change a path's components.
pub proof fn law_trailing_separator_ignored(p: Seq<char>)
    requires
        p.len() > 0,
    ensures
        path_components(p.push('/')) == path_components(p),
{
    let r = p.push('/');
    assert(r.drop_last() =~= p);
    assert(r.take(p.len() as int) =~= p);
    lemma_prefix_kept(p, r);
    assert(body_components(r) == body_components(p));
}

/// An inner `.` piece does not change a path's components: `p/.` is `p`.
pub proof fn law_dot_piece_ignored(p: Seq<char>)
    requires
        p.len() > 0,
    ensures
        path_components(p + seq!['/', '.']) == path_components(p),
{
    let q = p.push('/');
    let r = p + seq!['/', '.'];
    assert(q.drop_last() =~= p);
    assert(r =~= q + seq!['.']);
    lemma_scan_no_slash(q, seq!['.']);
    assert(Seq::<char>::empty() + seq!['.'] =~= seq!['.']);
    assert(body_components(r) == body_components(p));
    assert(r.take(p.len() as int) =~= p);
    lemma_prefix_kept(p, r);
}

/// A numbered name is the stem, a space, the number `i` in decimal (digits only, no leading
/// zero) between round brackets, and then `.ext` when there is an extension: the extension is
/// kept and nothing else is added.
pub proof fn law_numbered_name_parts(stem: Seq<char>, ext: Seq<char>, i: nat)
    ensures
        ({
            let t = numbered_name(stem, ext, i);
            let n = stem.len() as int;
            exists|j: int|
                #![trigger t.subrange(n + 2, j)]
                n + 2 < j < t.len() && t.take(n) == stem && t[n] == ' ' && t[n + 1] == '('
                    && all_digits(t.subrange(n + 2, j)) && digits_value(t.subrange(n + 2, j)) == i
                    && (t[n + 2] == '0' ==> j == n + 3) && t[j] == ')' && t.skip(j + 1) == if ext.len()
                    == 0 {
                    Seq::<char>::empty()
                } else {
                    seq!['.'] + ext
                }
        }),
{
    let t = numbered_name(stem, ext, i);
    let n = stem.len() as int;
    let d = decimal(i);
    lemma_decimal_digits(i);
    if i > 0 {
        lemma_decimal_no_leading_zero(i);
    } else {
        assert(decimal(0) == seq![crate::text::digit_char(0)]);
    }
    let j = n + 2 + d.len();
    assert(t.subrange(n + 2, j) =~= d);
    assert(t.take(n) =~= stem);
    assert(t.skip(j + 1) =~= if ext.len() == 0 {
        Seq::<char>::empty()
    } else {
        seq!['.'] + ext
    });
    assert(t[n + 2] == d[0]);
}

} // verus!
