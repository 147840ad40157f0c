//! Paths as `/`-separated strings (the separator of zip entry names, and of Unix paths).
use crate::stdx::{chars_of, copy_range, string_from_chars};
use vstd::string::*;
use vstd::prelude::*;

verus! {

/// The position of the last `c` in `s`.
pub open spec fn last_index_of(s: Seq<char>, c: char) -> Option<int>
    decreases s.len(),
{
    if s.len() == 0 {
        None
    } else if s.last() == c {
        Some(s.len() - 1)
    } else {
        last_index_of(s.drop_last(), c)
    }
}

/// Where the last component of `p` (no trailing `/`) starts: just after its last `/`.
pub open spec fn last_component_start(p: Seq<char>) -> int {
    match last_index_of(p, '/') {
        Some(j) => j + 1,
        None => 0,
    }
}

/// The final component of a path, as `Path::file_name` gives it on Unix: trailing `/` and
/// `.` components are passed over; `None` where the path is empty, the root, `.` or ends in
/// `..`.
pub open spec fn spec_file_name(p: Seq<char>) -> Option<Seq<char>>
    decreases p.len(),
{
    if p.len() == 0 {
        None
    } else if p.last() == '/' {
        spec_file_name(p.drop_last())
    } else {
        let k = last_component_start(p);
        let seg = p.subrange(k, p.len() as int);
        if seg == seq!['.'] {
            if k == 0 {
                None
            } else {
                proof {
                    lemma_last_index_of(p, '/');
                }
                spec_file_name(p.take(k))
            }
        } else if seg == seq!['.', '.'] {
            None
        } else {
            Some(seg)
        }
    }
}

/// What `last_index_of` gives.
pub proof fn lemma_last_index_of(s: Seq<char>, c: char)
    ensures
        last_index_of(s, c) matches Some(j) ==> 0 <= j < s.len() && s[j] == c && (forall|k: int|
            j < k < s.len() ==> s[k] != c),
        last_index_of(s, c) is None ==> forall|k: int| 0 <= k < s.len() ==> s[k] != c,
    decreases s.len(),
{
    if s.len() > 0 && s.last() != c {
        let t = s.drop_last();
        lemma_last_index_of(t, c);
        assert forall|k: int| 0 <= k < t.len() implies t[k] == s[k] by {}
        if let Some(j) = last_index_of(s, c) {
            assert forall|k: int| j < k < s.len() implies s[k] != c by {
                if k < t.len() {
                    assert(t[k] == s[k]);
                }
            }
        } else {
            assert forall|k: int| 0 <= k < s.len() implies s[k] != c by {
                if k < t.len() {
                    assert(t[k] == s[k]);
                }
            }
        }
    }
}

/// The position of the last `c` in `s[..end]`.
fn chars_last_index_of(s: &[char], end: usize, c: char) -> (r: Option<usize>)
    requires
        end <= s@.len(),
    ensures
        r matches Some(j) ==> last_index_of(s@.take(end as int), c) == Some(j as int),
        r is None ==> last_index_of(s@.take(end as int), c) is None,
{
    let mut i = end;
    while i > 0
        invariant
            0 <= i <= end <= s@.len(),
            last_index_of(s@.take(end as int), c) == last_index_of(s@.take(i as int), c),
        decreases i,
    {
        assert(s@.take(i as int).drop_last() =~= s@.take(i - 1));
        if s[i - 1] == c {
            return Some(i - 1);
        }
        i = i - 1;
    }
    None
}

fn file_name_chars(p: &[char]) -> (r: Option<Vec<char>>)
    ensures
        r matches Some(v) ==> spec_file_name(p@) == Some(v@),
        r is None ==> spec_file_name(p@) is None,
{
    let mut end = p.len();
    assert(p@.take(end as int) =~= p@);
    loop
        invariant
            0 <= end <= p@.len(),
            p@.len() <= usize::MAX,
            spec_file_name(p@) == spec_file_name(p@.take(end as int)),
        decreases end,
    {
        let ghost cur = p@.take(end as int);
        if end == 0 {
            return None;
        }
        if p[end - 1] == '/' {
            assert(cur.drop_last() =~= p@.take(end - 1));
            end = end - 1;
        } else {
            proof {
                lemma_last_index_of(cur, '/');
            }
            let k = match chars_last_index_of(p, end, '/') {
                Some(j) => j + 1,
                None => 0,
            };
            let seg = copy_range(p, k, end);
            assert(seg@ =~= cur.subrange(k as int, cur.len() as int));
            if seg.len() == 1 && seg[0] == '.' {
                assert(seg@ =~= seq!['.']);
                if k == 0 {
                    return None;
                }
                assert(cur.take(k as int) =~= p@.take(k as int));
                end = k;
            } else if seg.len() == 2 && seg[0] == '.' && seg[1] == '.' {
                assert(seg@ =~= seq!['.', '.']);
                return None;
            } else {
                assert(seg@ != seq!['.']) by {
                    if seg@ == seq!['.'] {
                        assert(seg@.len() == 1 && seg@[0] == '.');
                    }
                }
                assert(seg@ != seq!['.', '.']) by {
                    if seg@ == seq!['.', '.'] {
                        assert(seg@.len() == 2 && seg@[0] == '.' && seg@[1] == '.');
                    }
                }
                return Some(seg);
            }
        }
    }
}

/// The final component of a `/`-separated path (see `spec_file_name`).
pub fn file_name(p: &str) -> (r: Option<String>)
    ensures
        r matches Some(v) ==> spec_file_name(p@) == Some(v@),
        r is None ==> spec_file_name(p@) is None,
{
    let v = chars_of(p);
    match file_name_chars(v.as_slice()) {
        Some(n) => Some(string_from_chars(n.as_slice())),
        None => None,
    }
}

/// The final component of a path, or the whole path where it has none.
pub open spec fn file_name_or_path(p: Seq<char>) -> Seq<char> {
    match spec_file_name(p) {
        Some(n) => n,
        None => p,
    }
}

/// The final component of a path, or the whole path where it has none.
pub fn display_file_name(p: &str) -> (r: String)
    ensures
        r@ == file_name_or_path(p@),
{
    match file_name(p) {
        Some(n) => n,
        None => String::from_str(p),
    }
}

} // verus!

verus! {

/// The `/`-separated segments of `p[start..]`, empty ones included.
pub open spec fn split_from(p: Seq<char>, start: int) -> Seq<Seq<char>>
    decreases p.len() + 1 - start,
{
    if start < 0 || start > p.len() {
        Seq::empty()
    } else {
        match crate::text::find_from(p, seq!['/'], start) {
            None => seq![p.subrange(start, p.len() as int)],
            Some(j) => {
                proof {
                    crate::text::lemma_find_from(p, seq!['/'], start);
                }
                seq![p.subrange(start, j)] + split_from(p, j + 1)
            },
        }
    }
}

/// The components that segments give: empty segments and `.` are passed over, `..` is the
/// parent component, anything else is a normal component.
pub open spec fn seg_components(segs: Seq<Seq<char>>) -> Seq<Seq<char>>
    decreases segs.len(),
{
    if segs.len() == 0 {
        Seq::empty()
    } else {
        let g = segs[0];
        let rest = seg_components(segs.drop_first());
        if g.len() == 0 || g == seq!['.'] {
            rest
        } else {
            seq![g] + rest
        }
    }
}

/// The components of a path, as `Path::components` gives them on Unix, each written as a
/// string: the root as `/`, a leading current directory as `.`, the parent as `..`, and
/// normal components as themselves (these contain no `/` and are never `.` or `..`).
pub open spec fn components(p: Seq<char>) -> Seq<Seq<char>> {
    if p.len() > 0 && p[0] == '/' {
        seq![seq!['/']] + seg_components(split_from(p, 1))
    } else if p == seq!['.'] || (p.len() >= 2 && p[0] == '.' && p[1] == '/') {
        seq![seq!['.']] + seg_components(split_from(p, 1))
    } else {
        seg_components(split_from(p, 0))
    }
}

fn is_dot(g: &[char]) -> (r: bool)
    ensures
        r == (g@ == seq!['.']),
{
    if g.len() == 1 && g[0] == '.' {
        assert(g@ =~= seq!['.']);
        true
    } else {
        assert(g@ != seq!['.']) by {
            if g@ == seq!['.'] {
                assert(g@.len() == 1);
            }
        }
        false
    }
}

/// The views of a list of character vectors.
pub open spec fn vec_views(v: Seq<Vec<char>>) -> Seq<Seq<char>> {
    v.map_values(|x: Vec<char>| x@)
}

/// The components of a path (see `components`).
pub fn path_components(p: &str) -> (r: Vec<Vec<char>>)
    ensures
        vec_views(r@) == components(p@),
{
    let v = chars_of(p);
    let s = v.as_slice();
    let n = v.len();
    let mut out: Vec<Vec<char>> = Vec::new();
    let mut start: usize = 0;
    if n > 0 && s[0] == '/' {
        let r = vec!['/'];
        assert(r@ =~= seq!['/']);
        out.push(r);
        assert(vec_views(out@) =~= seq![seq!['/']]);
        start = 1;
    } else if (n == 1 && s[0] == '.') || (n >= 2 && s[0] == '.' && s[1] == '/') {
        let c = vec!['.'];
        assert(c@ =~= seq!['.']);
        out.push(c);
        assert(vec_views(out@) =~= seq![seq!['.']]);
        start = 1;
    }
    proof {
        if n == 1 && v@[0] == '.' {
            assert(v@ =~= seq!['.']);
        }
        if !(n > 0 && v@[0] == '/') && v@ == seq!['.'] {
            assert(v@.len() == 1 && v@[0] == '.');
        }
    }
    assert(vec_views(out@) + seg_components(split_from(v@, start as int)) =~= components(v@));
    let slash = vec!['/'];
    assert(slash@ =~= seq!['/']);
    loop
        invariant
            n == v@.len(),
            v@ == p@,
            slash@ == seq!['/'],
            0 <= start <= n,
            vec_views(out@) + seg_components(split_from(v@, start as int)) == components(p@),
        decreases n - start,
    {
        let ghost before = vec_views(out@);
        match crate::text::chars_find_from(v.as_slice(), slash.as_slice(), start) {
            None => {
                let g = copy_range(v.as_slice(), start, n);
                if g.len() > 0 && !is_dot(g.as_slice()) {
                    out.push(g);
                }
                assert(seq![g@].drop_first() =~= Seq::<Seq<char>>::empty());
                assert(seg_components(Seq::<Seq<char>>::empty()) =~= Seq::<Seq<char>>::empty());
                assert(seq![g@][0] == g@);
                assert(seg_components(seq![g@]) =~= (if g@.len() == 0 || g@ == seq!['.'] {
                    Seq::<Seq<char>>::empty()
                } else {
                    seq![g@]
                }));
                assert(vec_views(out@) =~= components(p@));
                return out;
            },
            Some(j) => {
                proof {
                    crate::text::lemma_find_from(v@, slash@, start as int);
                }
                let g = copy_range(v.as_slice(), start, j);
                let ghost segs = split_from(v@, start as int);
                assert(segs == seq![g@] + split_from(v@, j + 1));
                assert(segs.drop_first() =~= split_from(v@, j + 1));
                if g.len() > 0 && !is_dot(g.as_slice()) {
                    out.push(g);
                    assert(vec_views(out@) =~= before + seq![g@]);
                }
                start = j + 1;
            },
        }
    }
}

/// Whether two component lists are equal.
pub fn components_eq(a: &Vec<Vec<char>>, b: &Vec<Vec<char>>) -> (r: bool)
    ensures
        r == (vec_views(a@) == vec_views(b@)),
{
    if a.len() != b.len() {
        assert(vec_views(a@).len() != vec_views(b@).len());
        return false;
    }
    let mut i: usize = 0;
    while i < a.len()
        invariant
            a@.len() == b@.len(),
            0 <= i <= a@.len(),
            forall|k: int| 0 <= k < i ==> a@[k]@ == b@[k]@,
        decreases a@.len() - i,
    {
        if !chars_eq(a[i].as_slice(), b[i].as_slice()) {
            assert(vec_views(a@)[i as int] != vec_views(b@)[i as int]);
            return false;
        }
        i = i + 1;
    }
    assert(vec_views(a@) =~= vec_views(b@));
    true
}

/// Whether `prefix` is a prefix of `a` (component by component).
pub fn components_start_with(a: &Vec<Vec<char>>, prefix: &Vec<Vec<char>>) -> (r: bool)
    ensures
        r == (prefix@.len() <= a@.len() && vec_views(a@).take(prefix@.len() as int) == vec_views(prefix@)),
{
    if prefix.len() > a.len() {
        return false;
    }
    let mut i: usize = 0;
    while i < prefix.len()
        invariant
            prefix@.len() <= a@.len(),
            0 <= i <= prefix@.len(),
            forall|k: int| 0 <= k < i ==> a@[k]@ == prefix@[k]@,
        decreases prefix@.len() - i,
    {
        if !chars_eq(a[i].as_slice(), prefix[i].as_slice()) {
            assert(vec_views(a@).take(prefix@.len() as int)[i as int] != vec_views(prefix@)[i as int]);
            return false;
        }
        i = i + 1;
    }
    assert(vec_views(a@).take(prefix@.len() as int) =~= vec_views(prefix@));
    true
}

/// Whether two character sequences are equal.
pub fn chars_eq(a: &[char], b: &[char]) -> (r: bool)
    ensures
        r == (a@ == b@),
{
    if a.len() != b.len() {
        return false;
    }
    let mut i: usize = 0;
    while i < a.len()
        invariant
            a@.len() == b@.len(),
            0 <= i <= a@.len(),
            forall|k: int| 0 <= k < i ==> a@[k] == b@[k],
        decreases a@.len() - i,
    {
        if a[i] != b[i] {
            assert(a@[i as int] != b@[i as int]);
            return false;
        }
        i = i + 1;
    }
    assert(a@ =~= b@);
    true
}

} // verus!

verus! {

/// The components of a path's parent, as `Path::parent` gives it: `None` where the path has
/// no components or ends at the root.
pub open spec fn parent_components(p: Seq<char>) -> Option<Seq<Seq<char>>> {
    let c = components(p);
    if c.len() == 0 || c.last() == seq!['/'] {
        None
    } else {
        Some(c.drop_last())
    }
}

/// The components of a path's parent (see `parent_components`).
pub fn path_parent_components(p: &str) -> (r: Option<Vec<Vec<char>>>)
    ensures
        r matches Some(v) ==> parent_components(p@) == Some(vec_views(v@)),
        r is None ==> parent_components(p@) is None,
{
    let mut c = path_components(p);
    if c.len() == 0 {
        return None;
    }
    let last = c.len() - 1;
    let slash = vec!['/'];
    assert(slash@ =~= seq!['/']);
    if chars_eq(c[last].as_slice(), slash.as_slice()) {
        return None;
    }
    let ghost before = vec_views(c@);
    c.pop();
    assert(vec_views(c@) =~= before.drop_last());
    Some(c)
}

/// `rel` pushed onto `base`, as `Path::join` does on Unix: an absolute `rel` replaces the
/// base; else a `/` is put between them unless the base is empty or already ends with one.
pub open spec fn spec_join(base: Seq<char>, rel: Seq<char>) -> Seq<char> {
    if rel.len() > 0 && rel[0] == '/' {
        rel
    } else if base.len() > 0 && base.last() != '/' {
        base + seq!['/'] + rel
    } else {
        base + rel
    }
}

/// `rel` pushed onto `base` (see `spec_join`).
pub fn join(base: &str, rel: &str) -> (r: String)
    ensures
        r@ == spec_join(base@, rel@),
{
    let b = chars_of(base);
    let rv = chars_of(rel);
    if rv.len() > 0 && rv[0] == '/' {
        return String::from_str(rel);
    }
    let mut out = b.clone();
    assert(out@ =~= b@);
    if b.len() > 0 && b[b.len() - 1] != '/' {
        out.push('/');
    }
    crate::stdx::push_all(&mut out, rv.as_slice());
    string_from_chars(out.as_slice())
}

} // verus!

verus! {

/// No character of `s` is `c`.
pub open spec fn free_of(s: Seq<char>, c: char) -> bool {
    forall|k: int| 0 <= k < s.len() ==> s[k] != c
}

/// A single normal component: not empty, not `.`, and without `/`.
pub open spec fn is_plain_name(n: Seq<char>) -> bool {
    n.len() > 0 && n != seq!['.'] && free_of(n, '/')
}

/// Splitting `p`, a `/` and a `/`-free `n` gives the segments of `p` and then `n`.
proof fn lemma_split_push(p: Seq<char>, n: Seq<char>, s: int)
    requires
        0 <= s <= p.len(),
        free_of(n, '/'),
    ensures
        split_from(p + seq!['/'] + n, s) == split_from(p, s) + seq![n],
    decreases p.len() - s,
{
    let q = p + seq!['/'] + n;
    assert forall|k: int| 0 <= k < p.len() implies q[k] == p[k] by {}
    assert(q[p.len() as int] == '/');
    crate::text::lemma_find_from(p, seq!['/'], s);
    match crate::text::find_from(p, seq!['/'], s) {
        Some(j) => {
            assert(p.subrange(j, j + 1)[0] == p[j]);
            assert forall|k: int| s <= k < j implies q[k] != '/' by {
                assert(q[k] == p[k]);
                if p[k] == '/' {
                    assert(p.subrange(k, k + 1) =~= seq!['/']);
                    assert(crate::text::match_at(p, seq!['/'], k));
                }
            }
            crate::text::lemma_find_char_at(q, '/', s, j);
            lemma_split_push(p, n, j + 1);
            assert(q.subrange(s, j) =~= p.subrange(s, j));
            assert(split_from(q, s) =~= seq![p.subrange(s, j)] + split_from(q, j + 1));
            assert(split_from(p, s) =~= seq![p.subrange(s, j)] + split_from(p, j + 1));
            assert(split_from(q, s) =~= split_from(p, s) + seq![n]);
        },
        None => {
            assert forall|k: int| s <= k < p.len() implies q[k] != '/' by {
                assert(q[k] == p[k]);
                if p[k] == '/' {
                    assert(p.subrange(k, k + 1) =~= seq!['/']);
                    assert(crate::text::match_at(p, seq!['/'], k));
                }
            }
            crate::text::lemma_find_char_at(q, '/', s, p.len() as int);
            assert forall|k: int| p.len() + 1 <= k < q.len() implies q[k] != '/' by {
                assert(q[k] == n[k - p.len() - 1]);
            }
            crate::text::lemma_find_char_none(q, '/', (p.len() + 1) as int);
            assert(q.subrange((p.len() + 1) as int, q.len() as int) =~= n);
            assert(q.subrange(s, p.len() as int) =~= p.subrange(s, p.len() as int));
            assert(split_from(q, (p.len() + 1) as int) =~= seq![n]);
            assert(split_from(q, s) =~= seq![p.subrange(s, p.len() as int)] + seq![n]);
        },
    }
}

/// The components of joined segment lists are those of each, in turn.
proof fn lemma_seg_append(a: Seq<Seq<char>>, b: Seq<Seq<char>>)
    ensures
        seg_components(a + b) == seg_components(a) + seg_components(b),
    decreases a.len(),
{
    if a.len() == 0 {
        assert(a + b =~= b);
        assert(seg_components(a) =~= Seq::<Seq<char>>::empty());
    } else {
        assert((a + b)[0] == a[0]);
        assert((a + b).drop_first() =~= a.drop_first() + b);
        lemma_seg_append(a.drop_first(), b);
        assert(seg_components(a + b) =~= seg_components(a) + seg_components(b));
    }
}

/// A `/`-free path is one segment.
proof fn lemma_split_plain(n: Seq<char>)
    requires
        free_of(n, '/'),
    ensures
        split_from(n, 0) == seq![n],
{
    crate::text::lemma_find_char_none(n, '/', 0);
    assert(n.subrange(0, n.len() as int) =~= n);
}

/// Pushing a plain name onto a path adds it as the last component.
pub proof fn lemma_components_join(d: Seq<char>, n: Seq<char>)
    requires
        is_plain_name(n),
    ensures
        components(spec_join(d, n)) == components(d).push(n),
{
    let q = spec_join(d, n);
    let empty: Seq<char> = Seq::empty();
    assert(seg_components(Seq::<Seq<char>>::empty()) =~= Seq::<Seq<char>>::empty());
    assert(seg_components(seq![n]) =~= seq![n]) by {
        assert(seq![n][0] == n);
        assert(seq![n].drop_first() =~= Seq::<Seq<char>>::empty());
    }
    assert(seg_components(seq![empty]) =~= Seq::<Seq<char>>::empty()) by {
        assert(seq![empty][0] == empty);
        assert(seq![empty].drop_first() =~= Seq::<Seq<char>>::empty());
    }
    if n[0] == '/' {
        assert(false);
    }
    if d.len() == 0 {
        assert(q =~= n);
        lemma_split_plain(n);
        lemma_split_plain(d);
        assert(d =~= empty);
        if n.len() >= 2 {
            assert(n[1] != '/');
        }
        assert(components(d) =~= Seq::<Seq<char>>::empty());
        assert(components(q) =~= seq![n]);
    } else {
        if d.last() != '/' {
            assert(q =~= d + seq!['/'] + n);
            let st: int = if d[0] == '/' || d == seq!['.'] || (d.len() >= 2 && d[0] == '.' && d[1] == '/') {
                1
            } else {
                0
            };
            if d == seq!['.'] {
                assert(d.len() == 1);
            }
            lemma_split_push(d, n, st);
            lemma_seg_append(split_from(d, st), seq![n]);
            if d[0] == '/' {
                assert(q[0] == '/');
                assert(components(q) =~= seq![seq!['/']] + seg_components(split_from(q, 1)));
            } else if d == seq!['.'] || (d.len() >= 2 && d[0] == '.' && d[1] == '/') {
                assert(q[0] == '.' && q[1] == '/') by {
                    if d == seq!['.'] {
                        assert(d.len() == 1 && d[0] == '.');
                    }
                }
                assert(components(q) =~= seq![seq!['.']] + seg_components(split_from(q, 1)));
            } else {
                assert(q[0] == d[0]);
                if d.len() == 1 {
                    assert(d[0] != '.') by {
                        if d[0] == '.' {
                            assert(d =~= seq!['.']);
                        }
                    }
                } else {
                    assert(q[1] == d[1]);
                }
                assert(q != seq!['.']) by {
                    assert(q.len() >= 3);
                }
                assert(components(q) =~= seg_components(split_from(q, 0)));
            }
            assert(components(q) =~= components(d).push(n));
        } else {
            let p = d.drop_last();
            assert(d =~= p + seq!['/'] + empty);
            assert(q =~= p + seq!['/'] + n);
            if d.len() == 1 {
                assert(d[0] == '/');
                assert(q =~= seq!['/'] + n);
                assert forall|k: int| 1 <= k < q.len() implies q[k] != '/' by {
                    assert(q[k] == n[k - 1]);
                }
                crate::text::lemma_find_char_none(q, '/', 1);
                assert(q.subrange(1, q.len() as int) =~= n);
                assert(split_from(q, 1) =~= seq![n]);
                crate::text::lemma_find_char_none(d, '/', 1);
                assert(d.subrange(1, 1) =~= empty);
                assert(split_from(d, 1) =~= seq![empty]);
                assert(components(d) =~= seq![seq!['/']]);
                assert(components(q) =~= seq![seq!['/'], n]);
            } else {
                let st: int = if d[0] == '/' || (d[0] == '.' && d[1] == '/') {
                    1
                } else {
                    0
                };
                lemma_split_push(p, n, st);
                lemma_split_push(p, empty, st);
                lemma_seg_append(split_from(p, st), seq![n]);
                lemma_seg_append(split_from(p, st), seq![empty]);
                assert(q[0] == d[0] && q[1] == d[1]);
                assert(d != seq!['.']) by {
                    assert(d.len() >= 2);
                }
                assert(q != seq!['.']) by {
                    assert(q.len() >= 2);
                }
                assert(components(q) =~= components(d).push(n));
            }
        }
    }
}

/// A `c`-free tail does not move the last `c`.
proof fn lemma_last_index_of_append(x: Seq<char>, n: Seq<char>, c: char)
    requires
        free_of(n, c),
    ensures
        last_index_of(x + n, c) == last_index_of(x, c),
    decreases n.len(),
{
    if n.len() == 0 {
        assert(x + n =~= x);
    } else {
        assert((x + n).last() == n.last());
        assert((x + n).drop_last() =~= x + n.drop_last());
        lemma_last_index_of_append(x, n.drop_last(), c);
    }
}

/// The final component of a plain name pushed onto a path is that name (where it is not
/// `..`).
pub proof fn lemma_file_name_join(d: Seq<char>, n: Seq<char>)
    requires
        is_plain_name(n),
        n != seq!['.', '.'],
    ensures
        spec_file_name(spec_join(d, n)) == Some(n),
{
    let q = spec_join(d, n);
    assert(n.last() != '/');
    if n[0] == '/' {
        assert(false);
    }
    let x: Seq<char> = if d.len() == 0 {
        Seq::empty()
    } else if d.last() != '/' {
        d + seq!['/']
    } else {
        d
    };
    assert(q =~= x + n);
    lemma_last_index_of_append(x, n, '/');
    assert(q.last() == n.last());
    if d.len() == 0 {
        assert(last_index_of(x, '/') is None);
    } else {
        assert(x.last() == '/');
        assert(last_index_of(x, '/') == Some(x.len() - 1));
    }
    assert(last_component_start(q) == x.len());
    assert(q.subrange(x.len() as int, q.len() as int) =~= n);
}

/// The final component of a path is a plain name other than `..`.
pub proof fn lemma_file_name_plain(p: Seq<char>)
    ensures
        spec_file_name(p) matches Some(v) ==> is_plain_name(v) && v != seq!['.', '.'],
    decreases p.len(),
{
    if p.len() == 0 {
    } else if p.last() == '/' {
        lemma_file_name_plain(p.drop_last());
    } else {
        lemma_last_index_of(p, '/');
        let k = last_component_start(p);
        let seg = p.subrange(k, p.len() as int);
        if seg == seq!['.'] {
            if k != 0 {
                lemma_file_name_plain(p.take(k));
            }
        } else if seg == seq!['.', '.'] {
        } else {
            assert(k < p.len());
            assert forall|i: int| 0 <= i < seg.len() implies seg[i] != '/' by {
                assert(seg[i] == p[k + i]);
            }
        }
    }
}

/// Joining two `c`-free sequences gives a `c`-free sequence.
pub proof fn lemma_free_of_concat(a: Seq<char>, b: Seq<char>, c: char)
    requires
        free_of(a, c),
        free_of(b, c),
    ensures
        free_of(a + b, c),
{
    assert forall|k: int| 0 <= k < (a + b).len() implies (a + b)[k] != c by {
        if k < a.len() {
            assert((a + b)[k] == a[k]);
        } else {
            assert((a + b)[k] == b[k - a.len()]);
        }
    }
}

/// Every segment that splitting gives is free of `/`.
proof fn lemma_split_segments_plain(p: Seq<char>, start: int)
    ensures
        forall|t: int| 0 <= t < split_from(p, start).len() ==> free_of(#[trigger] split_from(p, start)[t], '/'),
    decreases p.len() + 1 - start,
{
    if 0 <= start <= p.len() {
        crate::text::lemma_find_from(p, seq!['/'], start);
        match crate::text::find_from(p, seq!['/'], start) {
            None => {
                let g = p.subrange(start, p.len() as int);
                assert forall|k: int| 0 <= k < g.len() implies g[k] != '/' by {
                    if g[k] == '/' {
                        assert(p.subrange(start + k, start + k + 1) =~= seq!['/']);
                        assert(crate::text::match_at(p, seq!['/'], start + k));
                    }
                }
                assert(split_from(p, start) == seq![g]);
            },
            Some(j) => {
                let g = p.subrange(start, j);
                assert forall|k: int| 0 <= k < g.len() implies g[k] != '/' by {
                    if g[k] == '/' {
                        assert(p.subrange(start + k, start + k + 1) =~= seq!['/']);
                        assert(crate::text::match_at(p, seq!['/'], start + k));
                    }
                }
                lemma_split_segments_plain(p, j + 1);
                let rest = split_from(p, j + 1);
                assert(split_from(p, start) == seq![g] + rest);
                assert forall|t: int| 0 <= t < split_from(p, start).len() implies free_of(
                    #[trigger] split_from(p, start)[t],
                    '/',
                ) by {
                    if t > 0 {
                        assert(split_from(p, start)[t] == rest[t - 1]);
                    }
                }
            },
        }
    }
}

/// Every component that segments give is one of the segments.
proof fn lemma_seg_components_from(segs: Seq<Seq<char>>)
    ensures
        forall|t: int| 0 <= t < seg_components(segs).len() ==> segs.contains(#[trigger] seg_components(segs)[t]),
    decreases segs.len(),
{
    if segs.len() > 0 {
        lemma_seg_components_from(segs.drop_first());
        let rest = seg_components(segs.drop_first());
        assert forall|t: int| 0 <= t < rest.len() implies segs.contains(#[trigger] rest[t]) by {
            let u = choose|u: int| 0 <= u < segs.drop_first().len() && segs.drop_first()[u] == rest[t];
            assert(segs[u + 1] == rest[t]);
        }
        let g = segs[0];
        if !(g.len() == 0 || g == seq!['.']) {
            assert forall|t: int| 0 <= t < seg_components(segs).len() implies segs.contains(
                #[trigger] seg_components(segs)[t],
            ) by {
                if t == 0 {
                    assert(segs[0] == g);
                } else {
                    assert(seg_components(segs)[t] == rest[t - 1]);
                }
            }
        }
    }
}

/// A path that does not start with `/` has no root component.
pub proof fn lemma_relative_has_no_root(p: Seq<char>)
    requires
        !(p.len() > 0 && p[0] == '/'),
    ensures
        !components(p).contains(seq!['/']),
{
    let st: int = if p == seq!['.'] || (p.len() >= 2 && p[0] == '.' && p[1] == '/') { 1 } else { 0 };
    lemma_split_segments_plain(p, st);
    lemma_seg_components_from(split_from(p, st));
    let c = seg_components(split_from(p, st));
    assert forall|t: int| 0 <= t < c.len() implies #[trigger] c[t] != seq!['/'] by {
        let u = choose|u: int| 0 <= u < split_from(p, st).len() && split_from(p, st)[u] == c[t];
        assert(free_of(split_from(p, st)[u], '/'));
        if c[t] == seq!['/'] {
            assert(c[t][0] == '/');
        }
    }
    if st == 1 {
        assert(components(p) == seq![seq!['.']] + c);
        if components(p).contains(seq!['/']) {
            let t = choose|t: int| 0 <= t < components(p).len() && components(p)[t] == seq!['/'];
            if t == 0 {
                assert(seq!['.'][0] != seq!['/'][0]);
            } else {
                assert(components(p)[t] == c[t - 1]);
            }
        }
    } else {
        assert(components(p) == c);
    }
}

/// Finding `/` in `x + n` from inside `n` finds it where it is found in `n`, shifted.
proof fn lemma_find_slash_shift(x: Seq<char>, n: Seq<char>, t: int)
    requires
        0 <= t <= n.len(),
    ensures
        crate::text::find_from(x + n, seq!['/'], x.len() + t) == (match crate::text::find_from(n, seq!['/'], t) {
            Some(j) => Some(j + x.len()),
            None => None,
        }),
{
    let q = x + n;
    crate::text::lemma_find_from(n, seq!['/'], t);
    assert forall|k: int| 0 <= k < n.len() implies q[x.len() + k] == n[k] by {}
    match crate::text::find_from(n, seq!['/'], t) {
        Some(j) => {
            assert(n.subrange(j, j + 1)[0] == n[j]);
            assert forall|k: int| x.len() + t <= k < x.len() + j implies q[k] != '/' by {
                assert(q[k] == n[k - x.len()]);
                if n[k - x.len()] == '/' {
                    assert(n.subrange(k - x.len(), k - x.len() + 1) =~= seq!['/']);
                    assert(crate::text::match_at(n, seq!['/'], k - x.len()));
                }
            }
            crate::text::lemma_find_char_at(q, '/', x.len() + t, j + x.len());
        },
        None => {
            assert forall|k: int| x.len() + t <= k < q.len() implies q[k] != '/' by {
                assert(q[k] == n[k - x.len()]);
                if n[k - x.len()] == '/' {
                    assert(n.subrange(k - x.len(), k - x.len() + 1) =~= seq!['/']);
                    assert(crate::text::match_at(n, seq!['/'], k - x.len()));
                }
            }
            crate::text::lemma_find_char_none(q, '/', x.len() + t);
        },
    }
}

/// Splitting `x + n` from inside `n` splits `n`.
proof fn lemma_split_shift(x: Seq<char>, n: Seq<char>, t: int)
    requires
        0 <= t <= n.len(),
    ensures
        split_from(x + n, x.len() + t) == split_from(n, t),
    decreases n.len() + 1 - t,
{
    let q = x + n;
    lemma_find_slash_shift(x, n, t);
    crate::text::lemma_find_from(n, seq!['/'], t);
    match crate::text::find_from(n, seq!['/'], t) {
        Some(j) => {
            lemma_split_shift(x, n, j + 1);
            assert(q.subrange(x.len() + t, j + x.len()) =~= n.subrange(t, j));
            assert(split_from(q, x.len() + t) =~= seq![n.subrange(t, j)] + split_from(q, x.len() + j + 1));
        },
        None => {
            assert(q.subrange(x.len() + t, q.len() as int) =~= n.subrange(t, n.len() as int));
        },
    }
}

/// Splitting `p`, a `/` and `n` gives the segments of `p` and then those of `n`.
proof fn lemma_split_join(p: Seq<char>, n: Seq<char>, s: int)
    requires
        0 <= s <= p.len(),
    ensures
        split_from(p + seq!['/'] + n, s) == split_from(p, s) + split_from(n, 0),
    decreases p.len() - s,
{
    let q = p + seq!['/'] + n;
    assert forall|k: int| 0 <= k < p.len() implies q[k] == p[k] by {}
    assert(q[p.len() as int] == '/');
    crate::text::lemma_find_from(p, seq!['/'], s);
    match crate::text::find_from(p, seq!['/'], s) {
        Some(j) => {
            assert(p.subrange(j, j + 1)[0] == p[j]);
            assert forall|k: int| s <= k < j implies q[k] != '/' by {
                assert(q[k] == p[k]);
                if p[k] == '/' {
                    assert(p.subrange(k, k + 1) =~= seq!['/']);
                    assert(crate::text::match_at(p, seq!['/'], k));
                }
            }
            crate::text::lemma_find_char_at(q, '/', s, j);
            lemma_split_join(p, n, j + 1);
            assert(q.subrange(s, j) =~= p.subrange(s, j));
            assert(split_from(q, s) =~= seq![p.subrange(s, j)] + split_from(q, j + 1));
            assert(split_from(p, s) =~= seq![p.subrange(s, j)] + split_from(p, j + 1));
            assert(split_from(q, s) =~= split_from(p, s) + split_from(n, 0));
        },
        None => {
            assert forall|k: int| s <= k < p.len() implies q[k] != '/' by {
                assert(q[k] == p[k]);
                if p[k] == '/' {
                    assert(p.subrange(k, k + 1) =~= seq!['/']);
                    assert(crate::text::match_at(p, seq!['/'], k));
                }
            }
            crate::text::lemma_find_char_at(q, '/', s, p.len() as int);
            assert(q =~= (p + seq!['/']) + n);
            lemma_split_shift(p + seq!['/'], n, 0);
            assert(q.subrange(s, p.len() as int) =~= p.subrange(s, p.len() as int));
            assert(split_from(q, s) =~= seq![p.subrange(s, p.len() as int)] + split_from(n, 0));
        },
    }
}

/// Pushing a relative path onto `d` keeps the components of `d` in front.
pub proof fn lemma_join_keeps_base(d: Seq<char>, p: Seq<char>)
    requires
        !(p.len() > 0 && p[0] == '/'),
    ensures
        components(d).len() <= components(spec_join(d, p)).len(),
        components(spec_join(d, p)).take(components(d).len() as int) == components(d),
{
    let q = spec_join(d, p);
    let empty: Seq<char> = Seq::empty();
    assert(seg_components(Seq::<Seq<char>>::empty()) =~= Seq::<Seq<char>>::empty());
    assert(seg_components(seq![empty]) =~= Seq::<Seq<char>>::empty()) by {
        assert(seq![empty][0] == empty);
        assert(seq![empty].drop_first() =~= Seq::<Seq<char>>::empty());
    }
    if d.len() == 0 {
        crate::text::lemma_find_char_none(d, '/', 0);
        assert(d.subrange(0, 0) =~= empty);
        assert(split_from(d, 0) =~= seq![empty]);
        assert(components(d) =~= Seq::<Seq<char>>::empty());
        assert(components(q).take(0) =~= components(d));
    } else if d.last() != '/' {
        assert(q =~= d + seq!['/'] + p);
        let st: int = if d[0] == '/' || d == seq!['.'] || (d.len() >= 2 && d[0] == '.' && d[1] == '/') {
            1
        } else {
            0
        };
        if d == seq!['.'] {
            assert(d.len() == 1);
        }
        lemma_split_join(d, p, st);
        lemma_seg_append(split_from(d, st), split_from(p, 0));
        if d[0] == '/' {
            assert(q[0] == '/');
            assert(components(q) =~= seq![seq!['/']] + seg_components(split_from(q, 1)));
        } else if d == seq!['.'] || (d.len() >= 2 && d[0] == '.' && d[1] == '/') {
            assert(q[0] == '.' && q[1] == '/') by {
                if d == seq!['.'] {
                    assert(d.len() == 1 && d[0] == '.');
                }
            }
            assert(components(q) =~= seq![seq!['.']] + seg_components(split_from(q, 1)));
        } else {
            assert(q[0] == d[0]);
            if d.len() == 1 {
                assert(d[0] != '.') by {
                    if d[0] == '.' {
                        assert(d =~= seq!['.']);
                    }
                }
            } else {
                assert(q[1] == d[1]);
            }
            assert(q != seq!['.']) by {
                assert(q.len() >= 2);
            }
            assert(components(q) =~= seg_components(split_from(q, 0)));
        }
        assert(components(q) =~= components(d) + seg_components(split_from(p, 0)));
        assert(components(q).take(components(d).len() as int) =~= components(d));
    } else {
        let dp = d.drop_last();
        assert(d =~= dp + seq!['/'] + empty);
        assert(q =~= dp + seq!['/'] + p);
        if d.len() == 1 {
            assert(d[0] == '/');
            assert(q =~= seq!['/'] + p);
            lemma_split_shift(seq!['/'], p, 0);
            crate::text::lemma_find_char_none(d, '/', 1);
            assert(d.subrange(1, 1) =~= empty);
            assert(split_from(d, 1) =~= seq![empty]);
            assert(components(d) =~= seq![seq!['/']]);
            assert(components(q) =~= seq![seq!['/']] + seg_components(split_from(p, 0)));
            assert(components(q).take(1) =~= components(d));
        } else {
            let st: int = if d[0] == '/' || (d[0] == '.' && d[1] == '/') {
                1
            } else {
                0
            };
            lemma_split_join(dp, p, st);
            lemma_split_join(dp, empty, st);
            crate::text::lemma_find_char_none(empty, '/', 0);
            assert(empty.subrange(0, 0) =~= empty);
            assert(split_from(empty, 0) =~= seq![empty]);
            lemma_seg_append(split_from(dp, st), split_from(p, 0));
            lemma_seg_append(split_from(dp, st), seq![empty]);
            assert(q[0] == d[0] && q[1] == d[1]);
            assert(d != seq!['.']) by {
                assert(d.len() >= 2);
            }
            assert(q != seq!['.']) by {
                assert(q.len() >= 2);
            }
            assert(components(q).take(components(d).len() as int) =~= components(d));
        }
    }
}

} // verus!
