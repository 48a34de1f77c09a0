//! Which files are Markdown documents.
use crate::doc_parser::markdown::{file_name_of, unix_file_name};
use crate::error::CliError;
use crate::text::{chars_of, slice_of, split_char, string_of};
use vstd::prelude::*;

verus! {

/// Index of the last `c` in `s`, if any.
pub open spec fn last_index_of(s: Seq<char>, c: char, n: int) -> Option<int>
    decreases n,
{
    if n <= 0 {
        None
    } else if s[n - 1] == c {
        Some(n - 1)
    } else {
        last_index_of(s, c, n - 1)
    }
}

/// `Path::extension` on Unix: the text after the last `.` of the file name,
/// unless the only `.` starts the name.
pub open spec fn unix_extension(p: Seq<char>) -> Option<Seq<char>> {
    match unix_file_name(p) {
        None => None,
        Some(name) => match last_index_of(name, '.', name.len() as int) {
            None => None,
            Some(i) => if i == 0 {
                None
            } else {
                Some(name.subrange(i + 1, name.len() as int))
            },
        },
    }
}

/// The extension of a path, as `Path::extension` gives it on Unix: the
/// text after the last `.` of the file name, none when there is no `.` or
/// the name starts with its only `.`.
pub(crate) fn path_extension(p: &str) -> (r: Option<String>)
    ensures
        match r {
            Some(e) => unix_extension(p@) == Some(e@),
            None => unix_extension(p@) is None,
        },
{
    match file_name_of(p) {
        None => None,
        Some(name) => {
            let v = chars_of(name.as_str());
            let mut j = v.len();
            while j > 0 && v[j - 1] != '.'
                invariant
                    0 <= j <= v.len(),
                    last_index_of(v@, '.', v.len() as int) == last_index_of(v@, '.', j as int),
                decreases j,
            {
                j = j - 1;
            }
            if j <= 1 {
                None
            } else {
                let e = slice_of(&v, j, v.len());
                Some(string_of(&e))
            }
        },
    }
}

/// ASCII upper-case letters made lower-case.
pub open spec fn ascii_lower(c: char) -> char {
    if 'A' <= c && c <= 'Z' {
        ((c as u32) + 32) as char
    } else {
        c
    }
}

/// Equality ignoring ASCII case.
pub open spec fn eq_ignore_ascii_case(a: Seq<char>, b: Seq<char>) -> bool {
    a.len() == b.len() && forall|i: int| 0 <= i < a.len() ==> ascii_lower(#[trigger] a[i]) == ascii_lower(b[i])
}

fn ascii_lower_exec(c: char) -> (r: char)
    ensures
        r == ascii_lower(c),
{
    if 'A' <= c && c <= 'Z' {
        ((c as u8) + 32) as char
    } else {
        c
    }
}

pub(crate) fn eq_ignore_ascii_case_exec(a: &Vec<char>, b: &Vec<char>) -> (r: bool)
    ensures
        r == eq_ignore_ascii_case(a@, b@),
{
    if a.len() != b.len() {
        return false;
    }
    let mut i: usize = 0;
    while i < a.len()
        invariant
            0 <= i <= a.len(),
            a.len() == b.len(),
            forall|j: int| 0 <= j < i ==> ascii_lower(#[trigger] a@[j]) == ascii_lower(b@[j]),
        decreases a.len() - i,
    {
        if ascii_lower_exec(a[i]) != ascii_lower_exec(b[i]) {
            return false;
        }
        i = i + 1;
    }
    true
}

/// A path whose extension is `md` or `markdown`, in any ASCII case.
pub open spec fn is_markdown(p: Seq<char>) -> bool {
    match unix_extension(p) {
        Some(e) => eq_ignore_ascii_case(e, "md"@) || eq_ignore_ascii_case(e, "markdown"@),
        None => false,
    }
}

/// Whether a path names a Markdown document.
pub fn is_markdown_file(path: &str) -> (r: bool)
    ensures
        r == is_markdown(path@),
{
    match path_extension(path) {
        None => false,
        Some(e) => {
            let ev = chars_of(e.as_str());
            eq_ignore_ascii_case_exec(&ev, &chars_of("md")) || eq_ignore_ascii_case_exec(&ev, &chars_of("markdown"))
        },
    }
}

/// The components of a Unix path, as `std::path::Path::components` reads
/// them, each as a pair of a rank and a name: rank 0 the root directory,
/// 1 a leading `.`, 2 `..`, 3 a name (the only rank with a name).
pub open spec fn unix_components(p: Seq<char>) -> Seq<(nat, Seq<char>)> {
    let root = p.len() > 0 && p[0] == '/';
    (if root {
        seq![(0nat, Seq::<char>::empty())]
    } else {
        seq![]
    }) + components_from(split_char(p, '/'), root, 0)
}

/// The components of the pieces between separators from piece `k` on:
/// empty pieces and `.` are left out, but for a `.` that starts a path
/// without a root.
pub open spec fn components_from(pieces: Seq<Seq<char>>, root: bool, k: int) -> Seq<(nat, Seq<char>)>
    decreases pieces.len() - k,
{
    if k < 0 || k >= pieces.len() {
        seq![]
    } else {
        let rest = components_from(pieces, root, k + 1);
        let piece = pieces[k];
        if piece.len() == 0 {
            rest
        } else if piece == "."@ {
            if k == 0 && !root {
                seq![(1nat, Seq::<char>::empty())] + rest
            } else {
                rest
            }
        } else if piece == ".."@ {
            seq![(2nat, Seq::<char>::empty())] + rest
        } else {
            seq![(3nat, piece)] + rest
        }
    }
}

/// Lexicographic order of sequences by a strict order of their items: a
/// proper prefix comes first.
pub open spec fn lex_lt<T>(a: Seq<T>, b: Seq<T>, lt: spec_fn(T, T) -> bool) -> bool
    decreases a.len(),
{
    if a.len() == 0 {
        b.len() > 0
    } else if b.len() == 0 {
        false
    } else if a[0] != b[0] {
        lt(a[0], b[0])
    } else {
        lex_lt(a.drop_first(), b.drop_first(), lt)
    }
}

/// A strict total order.
pub open spec fn strict_total<T>(lt: spec_fn(T, T) -> bool) -> bool {
    &&& forall|x: T| !#[trigger] lt(x, x)
    &&& forall|x: T, y: T, z: T| #[trigger] lt(x, y) && #[trigger] lt(y, z) ==> lt(x, z)
    &&& forall|x: T, y: T| x != y ==> #[trigger] lt(x, y) || lt(y, x)
}

/// The order of characters by code point (that of their UTF-8 bytes).
pub open spec fn char_lt() -> spec_fn(char, char) -> bool {
    |x: char, y: char| (x as int) < (y as int)
}

/// The order of components: by rank, then names by their characters.
pub open spec fn component_lt() -> spec_fn((nat, Seq<char>), (nat, Seq<char>)) -> bool {
    |x: (nat, Seq<char>), y: (nat, Seq<char>)| x.0 < y.0 || (x.0 == y.0 && lex_lt(x.1, y.1, char_lt()))
}

/// `Path` order of two paths: their components in lexicographic order.
pub open spec fn path_lt(a: Seq<char>, b: Seq<char>) -> bool {
    lex_lt(unix_components(a), unix_components(b), component_lt())
}

/// `Path` equality of two paths: equal components.
pub open spec fn path_eq(a: Seq<char>, b: Seq<char>) -> bool {
    unix_components(a) == unix_components(b)
}

proof fn lemma_lex_irreflexive<T>(a: Seq<T>, lt: spec_fn(T, T) -> bool)
    requires
        strict_total(lt),
    ensures
        !lex_lt(a, a, lt),
    decreases a.len(),
{
    if a.len() > 0 {
        lemma_lex_irreflexive(a.drop_first(), lt);
    }
}

proof fn lemma_lex_transitive<T>(a: Seq<T>, b: Seq<T>, c: Seq<T>, lt: spec_fn(T, T) -> bool)
    requires
        strict_total(lt),
        lex_lt(a, b, lt),
        lex_lt(b, c, lt),
    ensures
        lex_lt(a, c, lt),
    decreases a.len(),
{
    if a.len() > 0 && b.len() > 0 && c.len() > 0 {
        if a[0] != b[0] && b[0] != c[0] {
            assert(lt(a[0], c[0]));
            assert(a[0] != c[0]);
        } else if a[0] == b[0] && b[0] == c[0] {
            lemma_lex_transitive(a.drop_first(), b.drop_first(), c.drop_first(), lt);
        }
    }
}

proof fn lemma_lex_total<T>(a: Seq<T>, b: Seq<T>, lt: spec_fn(T, T) -> bool)
    requires
        strict_total(lt),
        a != b,
    ensures
        lex_lt(a, b, lt) || lex_lt(b, a, lt),
    decreases a.len(),
{
    if a.len() > 0 && b.len() > 0 && a[0] == b[0] {
        if a.drop_first() == b.drop_first() {
            assert(a =~= seq![a[0]] + a.drop_first());
            assert(b =~= seq![b[0]] + b.drop_first());
        }
        lemma_lex_total(a.drop_first(), b.drop_first(), lt);
    } else if a.len() == 0 && b.len() == 0 {
        assert(a =~= b);
    }
}

proof fn lemma_lex_strict_total<T>(lt: spec_fn(T, T) -> bool)
    requires
        strict_total(lt),
    ensures
        strict_total(|a: Seq<T>, b: Seq<T>| lex_lt(a, b, lt)),
{
    let l = |a: Seq<T>, b: Seq<T>| lex_lt(a, b, lt);
    assert forall|x: Seq<T>| !#[trigger] l(x, x) by {
        lemma_lex_irreflexive(x, lt);
    }
    assert forall|x: Seq<T>, y: Seq<T>, z: Seq<T>| #[trigger] l(x, y) && #[trigger] l(y, z) implies l(x, z) by {
        lemma_lex_transitive(x, y, z, lt);
    }
    assert forall|x: Seq<T>, y: Seq<T>| x != y implies #[trigger] l(x, y) || l(y, x) by {
        lemma_lex_total(x, y, lt);
    }
}

/// The order of components is a strict total order.
proof fn lemma_component_order()
    ensures
        strict_total(component_lt()),
{
    let c = char_lt();
    assert forall|x: char| !#[trigger] c(x, x) by {}
    assert forall|x: char, y: char, z: char| #[trigger] c(x, y) && #[trigger] c(y, z) implies c(x, z) by {}
    assert forall|x: char, y: char| x != y implies #[trigger] c(x, y) || c(y, x) by {
        assert((x as int) != (y as int));
    }
    assert(strict_total(c));
    lemma_lex_strict_total(c);
    let n = |a: Seq<char>, b: Seq<char>| lex_lt(a, b, c);
    assert(strict_total(n));
    let l = component_lt();
    assert forall|x: (nat, Seq<char>)| !#[trigger] l(x, x) by {
        assert(!n(x.1, x.1));
    }
    assert forall|x: (nat, Seq<char>), y: (nat, Seq<char>), z: (nat, Seq<char>)|
        #[trigger] l(x, y) && #[trigger] l(y, z) implies l(x, z) by {
        if x.0 == y.0 && y.0 == z.0 {
            assert(n(x.1, y.1) && n(y.1, z.1));
        }
    }
    assert forall|x: (nat, Seq<char>), y: (nat, Seq<char>)| x != y implies #[trigger] l(x, y) || l(y, x) by {
        if x.0 == y.0 {
            assert(x.1 != y.1);
            assert(n(x.1, y.1) || n(y.1, x.1));
        }
    }
}

/// `Path` order is a strict order on components, total up to `Path`
/// equality: no path comes before itself, the order is transitive, and of
/// two paths with different components one comes first.
pub proof fn path_order_is_total(a: Seq<char>, b: Seq<char>, c: Seq<char>)
    ensures
        !path_lt(a, a),
        path_lt(a, b) && path_lt(b, c) ==> path_lt(a, c),
        !path_eq(a, b) ==> path_lt(a, b) || path_lt(b, a),
        path_eq(a, b) ==> !path_lt(a, b),
{
    lemma_component_order();
    lemma_lex_irreflexive(unix_components(a), component_lt());
    if path_lt(a, b) && path_lt(b, c) {
        lemma_lex_transitive(unix_components(a), unix_components(b), unix_components(c), component_lt());
    }
    if !path_eq(a, b) {
        lemma_lex_total(unix_components(a), unix_components(b), component_lt());
    }
}

/// `Path::new(a) < Path::new(b)`: `Path` orders paths by their components
/// (`Path::components`, lexicographically, components ordered as the
/// variants of `Component` and names by their bytes); on Unix that is
/// `path_lt`.
#[verifier::external_body]
fn path_less(a: &str, b: &str) -> (r: bool)
    ensures
        r == path_lt(a@, b@),
{
    std::path::Path::new(a) < std::path::Path::new(b)
}

/// `Path::new(a) == Path::new(b)`: `Path` equality compares components;
/// on Unix that is `path_eq`.
#[verifier::external_body]
fn path_same(a: &str, b: &str) -> (r: bool)
    ensures
        r == path_eq(a@, b@),
{
    std::path::Path::new(a) == std::path::Path::new(b)
}

/// `s` with `x` placed after the last path that does not come after it.
pub open spec fn insert_by_path(s: Seq<Seq<char>>, x: Seq<char>) -> Seq<Seq<char>>
    decreases s.len(),
{
    if s.len() == 0 {
        seq![x]
    } else if path_lt(x, s.last()) {
        insert_by_path(s.drop_last(), x).push(s.last())
    } else {
        s.push(x)
    }
}

/// The first `n` paths in path order, equal paths kept in their order
/// (what a stable sort by the total `Path` order gives).
pub open spec fn sorted_by_path(s: Seq<Seq<char>>, n: int) -> Seq<Seq<char>>
    decreases n,
{
    if n <= 0 {
        seq![]
    } else {
        insert_by_path(sorted_by_path(s, n - 1), s[n - 1])
    }
}

/// The first `n` paths without consecutive repeats: a path equal to the
/// last one kept is dropped.
pub open spec fn dedup_paths(s: Seq<Seq<char>>, n: int) -> Seq<Seq<char>>
    decreases n,
{
    if n <= 0 {
        seq![]
    } else {
        let d = dedup_paths(s, n - 1);
        if d.len() > 0 && path_eq(s[n - 1], d.last()) {
            d
        } else {
            d.push(s[n - 1])
        }
    }
}

proof fn lemma_insert_at(v: Seq<Seq<char>>, x: Seq<char>, j: int)
    requires
        0 <= j <= v.len(),
        j == 0 || !path_lt(x, v[j - 1]),
        forall|k: int| j <= k < v.len() ==> path_lt(x, #[trigger] v[k]),
    ensures
        insert_by_path(v, x) == v.insert(j, x),
    decreases v.len() - j,
{
    if j < v.len() {
        let v0 = v.drop_last();
        assert(path_lt(x, v[v.len() - 1]));
        lemma_insert_at(v0, x, j);
        assert(v0.insert(j, x).push(v.last()) =~= v.insert(j, x));
    } else if v.len() > 0 {
        assert(v.push(x) =~= v.insert(j, x));
    } else {
        assert(seq![x] =~= v.insert(j, x));
    }
}

/// Places a path into a list kept in path order, after the paths that do
/// not come after it.
fn insert_path(v: &mut Vec<String>, x: String)
    ensures
        final(v).deep_view() == insert_by_path(old(v).deep_view(), x@),
{
    let mut j = v.len();
    let mut more = j > 0;
    while more
        invariant
            0 <= j <= v.len(),
            v.deep_view() == old(v).deep_view(),
            forall|k: int| j <= k < v.len() ==> path_lt(x@, #[trigger] v.deep_view()[k]),
            !more ==> (j == 0 || !path_lt(x@, v.deep_view()[j - 1])),
            more ==> j > 0,
        decreases j, (if more { 1int } else { 0int }),
    {
        if path_less(x.as_str(), v[j - 1].as_str()) {
            j = j - 1;
            more = j > 0;
        } else {
            more = false;
        }
    }
    proof {
        lemma_insert_at(old(v).deep_view(), x@, j as int);
    }
    v.insert(j, x);
    assert(v.deep_view() =~= old(v).deep_view().insert(j as int, x@));
}

/// Paths sorted by `Path` order (stable), then consecutive equal paths
/// dropped, as `sort` and `dedup` on `PathBuf`s do.
pub fn sort_and_dedup_paths(files: Vec<String>) -> (r: Vec<String>)
    ensures
        r.deep_view() == dedup_paths(
            sorted_by_path(files.deep_view(), files.deep_view().len() as int),
            files.deep_view().len() as int,
        ),
{
    let n = files.len();
    let ghost fv = files.deep_view();
    let mut sorted: Vec<String> = Vec::new();
    let mut i: usize = 0;
    assert(sorted.deep_view() =~= sorted_by_path(fv, 0));
    while i < n
        invariant
            0 <= i <= n,
            n == files.len(),
            fv == files.deep_view(),
            sorted.deep_view() == sorted_by_path(fv, i as int),
        decreases n - i,
    {
        insert_path(&mut sorted, files[i].clone());
        i = i + 1;
    }
    proof {
        lemma_sorted_len(fv, n as int);
    }
    let ghost sv = sorted.deep_view();
    let mut out: Vec<String> = Vec::new();
    let mut k: usize = 0;
    assert(out.deep_view() =~= dedup_paths(sv, 0));
    while k < sorted.len()
        invariant
            0 <= k <= sorted.len(),
            sv == sorted.deep_view(),
            out.deep_view() == dedup_paths(sv, k as int),
        decreases sorted.len() - k,
    {
        let keep = if out.len() == 0 {
            true
        } else {
            !path_same(sorted[k].as_str(), out[out.len() - 1].as_str())
        };
        if keep {
            let ghost ob = out.deep_view();
            out.push(sorted[k].clone());
            assert(out.deep_view() =~= ob.push(sv[k as int]));
        }
        k = k + 1;
    }
    out
}

proof fn lemma_sorted_len(s: Seq<Seq<char>>, n: int)
    requires
        0 <= n,
    ensures
        sorted_by_path(s, n).len() == n,
    decreases n,
{
    if n > 0 {
        lemma_sorted_len(s, n - 1);
        lemma_insert_len(sorted_by_path(s, n - 1), s[n - 1]);
    }
}

proof fn lemma_insert_len(s: Seq<Seq<char>>, x: Seq<char>)
    ensures
        insert_by_path(s, x).len() == s.len() + 1,
    decreases s.len(),
{
    if s.len() > 0 && path_lt(x, s.last()) {
        lemma_insert_len(s.drop_last(), x);
    }
}

/// The paths are in `Path` order: none comes after a later one.
pub open spec fn paths_in_order(v: Seq<Seq<char>>) -> bool {
    forall|i: int, j: int| #![trigger v[i], v[j]] 0 <= i < j < v.len() ==> !path_lt(v[j], v[i])
}

proof fn lemma_insert_contents(s: Seq<Seq<char>>, x: Seq<char>)
    ensures
        insert_by_path(s, x).len() == s.len() + 1,
        insert_by_path(s, x).contains(x),
        forall|e: Seq<char>| #[trigger] insert_by_path(s, x).contains(e) <==> (e == x || s.contains(e)),
    decreases s.len(),
{
    lemma_insert_len(s, x);
    if s.len() > 0 && path_lt(x, s.last()) {
        let s0 = s.drop_last();
        lemma_insert_contents(s0, x);
        let r0 = insert_by_path(s0, x);
        assert(insert_by_path(s, x) == r0.push(s.last()));
        assert(s =~= s0.push(s.last()));
        assert forall|e: Seq<char>| #[trigger] insert_by_path(s, x).contains(e) <==> (e == x || s.contains(e)) by {
            if s.contains(e) {
                let k = choose|k: int| 0 <= k < s.len() && s[k] == e;
                if k < s.len() - 1 {
                    assert(s0[k] == e);
                    assert(r0.contains(e));
                    let m = choose|m: int| 0 <= m < r0.len() && r0[m] == e;
                    assert(r0.push(s.last())[m] == e);
                } else {
                    assert(r0.push(s.last())[r0.len() as int] == e);
                }
            }
            if insert_by_path(s, x).contains(e) {
                let m = choose|m: int| 0 <= m < r0.len() + 1 && #[trigger] r0.push(s.last())[m] == e;
                if m < r0.len() {
                    assert(r0.contains(e));
                    if e != x {
                        assert(s0.contains(e));
                        let k = choose|k: int| 0 <= k < s0.len() && s0[k] == e;
                        assert(s[k] == e);
                    }
                } else {
                    assert(s[s.len() - 1] == e);
                }
            }
        }
        let m = choose|m: int| 0 <= m < r0.len() && r0[m] == x;
        assert(r0.push(s.last())[m] == x);
    } else if s.len() > 0 {
        assert(insert_by_path(s, x) == s.push(x));
        assert(s.push(x)[s.len() as int] == x);
        assert forall|e: Seq<char>| #[trigger] insert_by_path(s, x).contains(e) <==> (e == x || s.contains(e)) by {
            if s.contains(e) {
                let k = choose|k: int| 0 <= k < s.len() && s[k] == e;
                assert(s.push(x)[k] == e);
            }
            if s.push(x).contains(e) {
                let m = choose|m: int| 0 <= m < s.len() + 1 && #[trigger] s.push(x)[m] == e;
                if m < s.len() {
                    assert(s[m] == e);
                }
            }
        }
    } else {
        assert(insert_by_path(s, x) == seq![x]);
        assert(seq![x][0] == x);
    }
}

proof fn lemma_insert_in_order(s: Seq<Seq<char>>, x: Seq<char>)
    requires
        paths_in_order(s),
    ensures
        paths_in_order(insert_by_path(s, x)),
    decreases s.len(),
{
    if s.len() == 0 {
        assert(insert_by_path(s, x) == seq![x]);
    } else if path_lt(x, s.last()) {
        let s0 = s.drop_last();
        let last = s.last();
        assert(paths_in_order(s0)) by {
            assert forall|i: int, j: int| #![trigger s0[i], s0[j]] 0 <= i < j < s0.len() implies !path_lt(s0[j], s0[i]) by {
                assert(s[i] == s0[i] && s[j] == s0[j]);
            }
        }
        lemma_insert_in_order(s0, x);
        lemma_insert_contents(s0, x);
        let r0 = insert_by_path(s0, x);
        let r = r0.push(last);
        assert(insert_by_path(s, x) == r);
        assert forall|i: int, j: int| #![trigger r[i], r[j]] 0 <= i < j < r.len() implies !path_lt(r[j], r[i]) by {
            if j < r0.len() {
                assert(r[i] == r0[i] && r[j] == r0[j]);
            } else {
                assert(r[j] == last);
                let e = r0[i];
                assert(r[i] == e);
                assert(r0.contains(e));
                if e == x {
                    path_order_is_total(x, last, x);
                } else {
                    assert(s0.contains(e));
                    let k = choose|k: int| 0 <= k < s0.len() && s0[k] == e;
                    assert(s[k] == e && s[s.len() - 1] == last);
                }
            }
        }
    } else {
        let r = s.push(x);
        assert(insert_by_path(s, x) == r);
        let last = s.last();
        assert forall|i: int, j: int| #![trigger r[i], r[j]] 0 <= i < j < r.len() implies !path_lt(r[j], r[i]) by {
            if j < s.len() {
                assert(r[i] == s[i] && r[j] == s[j]);
            } else {
                assert(r[j] == x && r[i] == s[i]);
                if path_lt(x, s[i]) {
                    if i < s.len() - 1 {
                        assert(!path_lt(s[s.len() - 1], s[i]));
                    }
                    path_order_is_total(s[i], last, x);
                    path_order_is_total(x, s[i], last);
                    assert(!path_lt(x, last));
                }
            }
        }
    }
}

proof fn lemma_sorted_paths(s: Seq<Seq<char>>, n: int)
    requires
        0 <= n <= s.len(),
    ensures
        paths_in_order(sorted_by_path(s, n)),
        sorted_by_path(s, n).len() == n,
        forall|e: Seq<char>| #[trigger] sorted_by_path(s, n).contains(e) <==> s.take(n).contains(e),
    decreases n,
{
    lemma_sorted_len(s, n);
    if n == 0 {
        assert(s.take(0) =~= Seq::<Seq<char>>::empty());
    } else {
        lemma_sorted_paths(s, n - 1);
        let v = sorted_by_path(s, n - 1);
        lemma_insert_in_order(v, s[n - 1]);
        lemma_insert_contents(v, s[n - 1]);
        assert(sorted_by_path(s, n) == insert_by_path(v, s[n - 1]));
        assert(s.take(n) =~= s.take(n - 1).push(s[n - 1]));
        assert forall|e: Seq<char>| #[trigger] sorted_by_path(s, n).contains(e) <==> s.take(n).contains(e) by {
            assert(insert_by_path(v, s[n - 1]).contains(e) <==> (e == s[n - 1] || v.contains(e)));
            assert(v.contains(e) <==> s.take(n - 1).contains(e));
            assert(s.take(n)[n - 1] == s[n - 1]);
            if s.take(n - 1).contains(e) {
                let k = choose|k: int| 0 <= k < n - 1 && #[trigger] s.take(n - 1)[k] == e;
                assert(s.take(n)[k] == e);
            }
            if s.take(n).contains(e) {
                let k = choose|k: int| 0 <= k < n && #[trigger] s.take(n)[k] == e;
                if k < n - 1 {
                    assert(s.take(n - 1)[k] == e);
                }
            }
        }
    }
}

/// Each path of `d` is one of `w`.
pub open spec fn drawn_from(d: Seq<Seq<char>>, w: Seq<Seq<char>>) -> bool {
    forall|i: int| 0 <= i < d.len() ==> w.contains(#[trigger] d[i])
}

/// Some path of `d` is equal to `p`.
pub open spec fn has_equal(d: Seq<Seq<char>>, p: Seq<char>) -> bool {
    exists|i: int| 0 <= i < d.len() && path_eq(#[trigger] d[i], p)
}

/// Each path of `w` is equal to a path of `d`.
pub open spec fn covers(d: Seq<Seq<char>>, w: Seq<Seq<char>>) -> bool {
    forall|k: int| 0 <= k < w.len() ==> #[trigger] has_equal(d, w[k])
}

/// Each path comes strictly before the later ones.
pub open spec fn strictly_ordered(d: Seq<Seq<char>>) -> bool {
    forall|i: int, j: int| #![trigger d[i], d[j]] 0 <= i < j < d.len() ==> path_lt(d[i], d[j])
}

proof fn lemma_dedup_keep_drawn(d: Seq<Seq<char>>, w: Seq<Seq<char>>, x: Seq<char>)
    requires
        drawn_from(d, w),
    ensures
        drawn_from(d.push(x), w.push(x)),
{
    let r = d.push(x);
    let w1 = w.push(x);
    assert(w1[w.len() as int] == x);
    assert forall|i: int| 0 <= i < r.len() implies w1.contains(#[trigger] r[i]) by {
        if i < d.len() {
            assert(r[i] == d[i]);
            assert(w.contains(d[i]));
            let k = choose|k: int| 0 <= k < w.len() && #[trigger] w[k] == d[i];
            assert(w1[k] == d[i]);
        } else {
            assert(r[i] == x);
        }
    }
}

proof fn lemma_dedup_keep_covers(d: Seq<Seq<char>>, w: Seq<Seq<char>>, x: Seq<char>)
    requires
        covers(d, w),
    ensures
        covers(d.push(x), w.push(x)),
{
    let r = d.push(x);
    let w1 = w.push(x);
    assert forall|k: int| 0 <= k < w1.len() implies #[trigger] has_equal(r, w1[k]) by {
        if k == w.len() {
            let i = d.len() as int;
            assert(r[i] == x && w1[k] == x);
            assert(path_eq(r[i], w1[k]));
        } else {
            assert(w1[k] == w[k]);
            assert(has_equal(d, w[k]));
            let i = choose|i: int| 0 <= i < d.len() && path_eq(#[trigger] d[i], w[k]);
            assert(r[i] == d[i]);
            assert(path_eq(r[i], w1[k]));
        }
    }
}

proof fn lemma_dedup_keep_ordered(d: Seq<Seq<char>>, last: Seq<char>, x: Seq<char>)
    requires
        strictly_ordered(d),
        d.len() > 0,
        d.last() == last,
        path_lt(last, x),
    ensures
        strictly_ordered(d.push(x)),
{
    let r = d.push(x);
    assert forall|i: int, j: int| #![trigger r[i], r[j]] 0 <= i < j < r.len() implies path_lt(r[i], r[j]) by {
        if j < d.len() {
            assert(r[i] == d[i] && r[j] == d[j]);
        } else if i < d.len() - 1 {
            assert(r[i] == d[i]);
            assert(path_lt(d[i], d[d.len() - 1]));
            path_order_is_total(d[i], last, x);
        } else {
            assert(r[i] == last);
        }
    }
}

proof fn lemma_dedup_keep(d: Seq<Seq<char>>, w: Seq<Seq<char>>, x: Seq<char>)
    requires
        drawn_from(d, w),
        covers(d, w),
        strictly_ordered(d),
        paths_in_order(w.push(x)),
        d.len() > 0 ==> !path_eq(x, d.last()),
    ensures
        drawn_from(d.push(x), w.push(x)),
        covers(d.push(x), w.push(x)),
        strictly_ordered(d.push(x)),
{
    lemma_dedup_keep_drawn(d, w, x);
    lemma_dedup_keep_covers(d, w, x);
    if d.len() > 0 {
        let w1 = w.push(x);
        let last = d.last();
        assert(w.contains(last));
        let m = choose|m: int| 0 <= m < w.len() && #[trigger] w[m] == last;
        assert(w1[m] == last && w1[w.len() as int] == x);
        assert(!path_lt(x, last));
        path_order_is_total(last, x, x);
        lemma_dedup_keep_ordered(d, last, x);
    } else {
        assert(strictly_ordered(d.push(x)));
    }
}

proof fn lemma_dedup_paths(v: Seq<Seq<char>>, n: int)
    requires
        0 <= n <= v.len(),
        paths_in_order(v),
    ensures
        drawn_from(dedup_paths(v, n), v.take(n)),
        covers(dedup_paths(v, n), v.take(n)),
        strictly_ordered(dedup_paths(v, n)),
    decreases n,
{
    if n > 0 {
        lemma_dedup_paths(v, n - 1);
        let d = dedup_paths(v, n - 1);
        let w = v.take(n - 1);
        let x = v[n - 1];
        assert(v.take(n) =~= w.push(x));
        assert(paths_in_order(w.push(x))) by {
            let w1 = w.push(x);
            assert forall|i: int, j: int| #![trigger w1[i], w1[j]] 0 <= i < j < w1.len() implies !path_lt(w1[j], w1[i]) by {
                assert(w1[i] == v[i] && w1[j] == v[j]);
            }
        }
        if d.len() > 0 && path_eq(x, d.last()) {
            assert(dedup_paths(v, n) == d);
            let w1 = w.push(x);
            assert forall|i: int| 0 <= i < d.len() implies w1.contains(#[trigger] d[i]) by {
                let k = choose|k: int| 0 <= k < w.len() && #[trigger] w[k] == d[i];
                assert(w1[k] == d[i]);
            }
            assert forall|k: int| 0 <= k < w1.len() implies #[trigger] has_equal(d, w1[k]) by {
                if k == w.len() {
                    assert(w1[k] == x);
                    assert(path_eq(d[d.len() - 1], w1[k]));
                } else {
                    assert(w1[k] == w[k]);
                    assert(has_equal(d, w[k]));
                }
            }
        } else {
            assert(dedup_paths(v, n) == d.push(x));
            lemma_dedup_keep(d, w, x);
        }
    } else {
        assert(v.take(0) =~= Seq::<Seq<char>>::empty());
    }
}

/// Sorting and deduplicating paths gives each file once, in `Path` order:
/// every path comes strictly before the later ones (so no two are equal
/// paths), each comes from the input, and every input path is equal to
/// one that is kept. Two files in different directories are different
/// paths, so both are kept.
pub proof fn sorted_paths_are_ordered_and_distinct(files: Seq<Seq<char>>)
    ensures
        strictly_ordered(dedup_paths(sorted_by_path(files, files.len() as int), files.len() as int)),
        drawn_from(dedup_paths(sorted_by_path(files, files.len() as int), files.len() as int), files),
        covers(dedup_paths(sorted_by_path(files, files.len() as int), files.len() as int), files),
{
    let n = files.len() as int;
    lemma_sorted_paths(files, n);
    let v = sorted_by_path(files, n);
    lemma_dedup_paths(v, n);
    assert(files.take(n) =~= files);
    assert(v.take(n) =~= v);
    let r = dedup_paths(v, n);
    assert forall|i: int| 0 <= i < r.len() implies files.contains(#[trigger] r[i]) by {
        assert(v.contains(r[i]));
    }
    assert forall|k: int| 0 <= k < files.len() implies #[trigger] has_equal(r, files[k]) by {
        assert(files.take(n).contains(files[k]));
        assert(v.contains(files[k]));
        let m = choose|m: int| 0 <= m < v.len() && #[trigger] v[m] == files[k];
        assert(has_equal(r, v[m]));
    }
}

/// What the file system says of a source path.
pub enum SourceKind {
    /// Nothing exists at the path.
    Missing,
    /// A file.
    File,
    /// A directory, with the files found in it (in its subdirectories too
    /// when searching recursively).
    Dir(Vec<String>),
    /// Something that is neither a file nor a directory.
    Other,
}

/// A source path and what it holds.
pub struct SourceListing {
    pub path: String,
    pub kind: SourceKind,
}

/// The Markdown files of the first `n` sources, in order, or the first
/// source that is missing or neither a file nor a directory.
pub open spec fn markdown_candidates(sources: Seq<SourceListing>, n: int) -> Result<Seq<Seq<char>>, Seq<char>>
    decreases n,
{
    if n <= 0 {
        Ok(seq![])
    } else {
        match markdown_candidates(sources, n - 1) {
            Err(p) => Err(p),
            Ok(found) => {
                let s = sources[n - 1];
                match s.kind {
                    SourceKind::Missing => Err(s.path@),
                    SourceKind::Other => Err(s.path@),
                    SourceKind::File => Ok(if is_markdown(s.path@) { found.push(s.path@) } else { found }),
                    SourceKind::Dir(files) => Ok(found + files.deep_view().filter(|f: Seq<char>| is_markdown(f))),
                }
            },
        }
    }
}

fn push_markdown_files(out: &mut Vec<String>, files: &Vec<String>)
    ensures
        final(out).deep_view() == old(out).deep_view() + files.deep_view().filter(|f: Seq<char>| is_markdown(f)),
{
    let ghost fv = files.deep_view();
    let ghost start = out.deep_view();
    let ghost p = |f: Seq<char>| is_markdown(f);
    let mut i: usize = 0;
    assert(fv.take(0).filter(p) =~= Seq::<Seq<char>>::empty()) by {
        fv.take(0).lemma_filter_len(p);
    }
    assert(out.deep_view() =~= start + fv.take(0).filter(p));
    while i < files.len()
        invariant
            0 <= i <= files.len(),
            fv == files.deep_view(),
            p == (|f: Seq<char>| is_markdown(f)),
            out.deep_view() == start + fv.take(i as int).filter(p),
        decreases files.len() - i,
    {
        assert(fv.take(i + 1) =~= fv.take(i as int).push(fv[i as int]));
        proof {
            fv.take(i as int).lemma_filter_push(fv[i as int], p);
        }
        if is_markdown_file(files[i].as_str()) {
            let ghost ob = out.deep_view();
            out.push(files[i].clone());
            assert(out.deep_view() =~= ob.push(fv[i as int]));
        }
        i = i + 1;
    }
    assert(fv.take(files.len() as int) =~= fv);
}

/// The Markdown files of the sources, sorted by path without repeats: a
/// file source counts when it is Markdown, a directory gives its Markdown
/// files; a missing source, or one that is neither file nor directory,
/// is an invalid path.
pub fn discover_markdown_files(sources: &Vec<SourceListing>) -> (r: Result<Vec<String>, CliError>)
    ensures
        match markdown_candidates(sources@, sources@.len() as int) {
            Err(p) => r matches Err(CliError::InvalidPath(q)) && q@ == p,
            Ok(found) => r matches Ok(v) && v.deep_view() == dedup_paths(
                sorted_by_path(found, found.len() as int),
                found.len() as int,
            ),
        },
{
    let mut files: Vec<String> = Vec::new();
    let mut k: usize = 0;
    assert(files.deep_view() =~= seq![]);
    while k < sources.len()
        invariant
            0 <= k <= sources.len(),
            markdown_candidates(sources@, k as int) == Ok::<Seq<Seq<char>>, Seq<char>>(files.deep_view()),
        decreases sources.len() - k,
    {
        let s = &sources[k];
        match &s.kind {
            SourceKind::Missing => {
                proof {
                    lemma_candidates_err(sources@, k + 1, s.path@);
                }
                return Err(CliError::InvalidPath(s.path.clone()));
            },
            SourceKind::Other => {
                proof {
                    lemma_candidates_err(sources@, k + 1, s.path@);
                }
                return Err(CliError::InvalidPath(s.path.clone()));
            },
            SourceKind::File => {
                if is_markdown_file(s.path.as_str()) {
                    let ghost fb = files.deep_view();
                    files.push(s.path.clone());
                    assert(files.deep_view() =~= fb.push(s.path@));
                }
            },
            SourceKind::Dir(found) => {
                push_markdown_files(&mut files, found);
            },
        }
        k = k + 1;
    }
    Ok(sort_and_dedup_paths(files))
}

proof fn lemma_candidates_err(sources: Seq<SourceListing>, n: int, p: Seq<char>)
    requires
        0 <= n <= sources.len(),
        markdown_candidates(sources, n) == Err::<Seq<Seq<char>>, Seq<char>>(p),
    ensures
        markdown_candidates(sources, sources.len() as int) == Err::<Seq<Seq<char>>, Seq<char>>(p),
    decreases sources.len() - n,
{
    if n < sources.len() {
        lemma_candidates_err(sources, n + 1, p);
    }
}

/// The source lists `f`: it is that file, or a directory whose listing
/// holds it.
pub open spec fn listed_by(s: SourceListing, f: Seq<char>) -> bool {
    match s.kind {
        SourceKind::File => s.path@ == f,
        SourceKind::Dir(files) => files.deep_view().contains(f),
        _ => false,
    }
}

/// A source that is missing, or neither a file nor a directory.
pub open spec fn bad_source(s: SourceListing) -> bool {
    s.kind is Missing || s.kind is Other
}

proof fn lemma_candidates(sources: Seq<SourceListing>, n: int)
    requires
        0 <= n <= sources.len(),
    ensures
        match markdown_candidates(sources, n) {
            Ok(found) => (forall|j: int| 0 <= j < n ==> !bad_source(#[trigger] sources[j])) && (forall|i: int|
                0 <= i < found.len() ==> is_markdown(#[trigger] found[i]) && exists|k: int|
                    0 <= k < n && listed_by(#[trigger] sources[k], found[i])),
            Err(p) => exists|k: int|
                0 <= k < n && bad_source(#[trigger] sources[k]) && sources[k].path@ == p && forall|j: int|
                    0 <= j < k ==> !bad_source(#[trigger] sources[j]),
        },
    decreases n,
{
    if n > 0 {
        lemma_candidates(sources, n - 1);
        let s = sources[n - 1];
        match markdown_candidates(sources, n - 1) {
            Err(p) => {},
            Ok(found) => {
                match s.kind {
                    SourceKind::Missing => {
                        assert(bad_source(sources[n - 1]));
                    },
                    SourceKind::Other => {
                        assert(bad_source(sources[n - 1]));
                    },
                    SourceKind::File => {
                        let r = if is_markdown(s.path@) { found.push(s.path@) } else { found };
                        assert forall|i: int| 0 <= i < r.len() implies is_markdown(#[trigger] r[i]) && exists|k: int|
                            0 <= k < n && listed_by(#[trigger] sources[k], r[i]) by {
                            if i < found.len() {
                                assert(r[i] == found[i]);
                                let k = choose|k: int| 0 <= k < n - 1 && listed_by(#[trigger] sources[k], found[i]);
                                assert(listed_by(sources[k], r[i]));
                            } else {
                                assert(listed_by(sources[n - 1], r[i]));
                            }
                        }
                    },
                    SourceKind::Dir(files) => {
                        let pred = |f: Seq<char>| is_markdown(f);
                        let fl = files.deep_view().filter(pred);
                        let r = found + fl;
                        assert forall|i: int| 0 <= i < r.len() implies is_markdown(#[trigger] r[i]) && exists|k: int|
                            0 <= k < n && listed_by(#[trigger] sources[k], r[i]) by {
                            if i < found.len() {
                                assert(r[i] == found[i]);
                                let k = choose|k: int| 0 <= k < n - 1 && listed_by(#[trigger] sources[k], found[i]);
                                assert(listed_by(sources[k], r[i]));
                            } else {
                                let j = i - found.len();
                                assert(r[i] == fl[j]);
                                files.deep_view().lemma_filter_pred(pred, j);
                                assert(fl.contains(fl[j]));
                                files.deep_view().lemma_filter_contains_rev(pred, fl[j]);
                                assert(listed_by(sources[n - 1], r[i]));
                            }
                        }
                    },
                }
            },
        }
    }
}

/// Discovery either fails on the first source that is missing or neither a
/// file nor a directory, naming it, or gives Markdown files only, each a
/// file source or a file listed for a directory source, in strict `Path`
/// order (so without repeats), every candidate kept as an equal path.
pub proof fn discovery_is_sorted_markdown_or_first_bad_source(sources: Seq<SourceListing>)
    ensures
        match markdown_candidates(sources, sources.len() as int) {
            Err(p) => exists|k: int|
                0 <= k < sources.len() && bad_source(#[trigger] sources[k]) && sources[k].path@ == p && forall|j: int|
                    0 <= j < k ==> !bad_source(#[trigger] sources[j]),
            Ok(found) => {
                let r = dedup_paths(sorted_by_path(found, found.len() as int), found.len() as int);
                &&& strictly_ordered(r)
                &&& covers(r, found)
                &&& forall|i: int| 0 <= i < r.len() ==> is_markdown(#[trigger] r[i]) && exists|k: int|
                    0 <= k < sources.len() && listed_by(#[trigger] sources[k], r[i])
            },
        },
{
    lemma_candidates(sources, sources.len() as int);
    if let Ok(found) = markdown_candidates(sources, sources.len() as int) {
        sorted_paths_are_ordered_and_distinct(found);
        let r = dedup_paths(sorted_by_path(found, found.len() as int), found.len() as int);
        assert forall|i: int| 0 <= i < r.len() implies is_markdown(#[trigger] r[i]) && exists|k: int|
            0 <= k < sources.len() && listed_by(#[trigger] sources[k], r[i]) by {
            assert(found.contains(r[i]));
            let m = choose|m: int| 0 <= m < found.len() && #[trigger] found[m] == r[i];
            assert(is_markdown(found[m]));
        }
    }
}

} // verus!
