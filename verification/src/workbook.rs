//! Reading worksheet names out of a spreadsheet package: `xl/workbook.xml` lists the sheets
//! with their relationship ids, and `xl/_rels/workbook.xml.rels` maps those ids to the
//! worksheet parts.
use crate::stdx::{
    chars_of, copy_range, decimal_digits, push_all, push_decimal, push_str, str_eq,
    string_from_chars,
};
use crate::text::{
    chars_find_from, chars_match_at, chars_start_with, find_from, lemma_find_char, lemma_find_from,
    match_at, starts_with,
};
use vstd::prelude::*;

verus! {

/// The value of the first `name="..."` attribute in `xml`: the text after the first
/// occurrence of `name="` up to the next `"`; none where either is missing.
pub open spec fn spec_attr(xml: Seq<char>, name: Seq<char>) -> Option<Seq<char>> {
    let pat = name + seq!['=', '"'];
    match find_from(xml, pat, 0) {
        None => None,
        Some(idx) => {
            let rest = xml.skip(idx + pat.len());
            match find_from(rest, seq!['"'], 0) {
                None => None,
                Some(end) => Some(rest.take(end)),
            }
        },
    }
}

fn attr_chars(xml: &[char], name: &[char]) -> (r: Option<Vec<char>>)
    ensures
        r matches Some(v) ==> spec_attr(xml@, name@) == Some(v@),
        r is None ==> spec_attr(xml@, name@) is None,
{
    let mut pat: Vec<char> = Vec::new();
    push_all(&mut pat, name);
    pat.push('=');
    pat.push('"');
    assert(pat@ =~= name@ + seq!['=', '"']);
    match chars_find_from(xml, pat.as_slice(), 0) {
        None => None,
        Some(idx) => {
            proof {
                lemma_find_from(xml@, pat@, 0);
            }
            let xl = xml.len();
            let start = idx + pat.len();
            let rest = copy_range(xml, start, xml.len());
            assert(rest@ =~= xml@.skip(start as int));
            let quote = vec!['"'];
            assert(quote@ =~= seq!['"']);
            match chars_find_from(rest.as_slice(), quote.as_slice(), 0) {
                None => None,
                Some(end) => {
                    proof {
                        lemma_find_from(rest@, quote@, 0);
                    }
                    let v = copy_range(rest.as_slice(), 0, end);
                    assert(v@ =~= rest@.take(end as int));
                    Some(v)
                },
            }
        },
    }
}

/// The value of the first attribute `name="..."` in `xml` (the text up to the next `"`),
/// or `None` where the attribute or its closing quote is missing.
pub fn attr(xml: &str, name: &str) -> (r: Option<String>)
    ensures
        r matches Some(v) ==> spec_attr(xml@, name@) == Some(v@),
        r is None ==> spec_attr(xml@, name@) is None,
{
    let x = chars_of(xml);
    let n = chars_of(name);
    match attr_chars(x.as_slice(), n.as_slice()) {
        None => None,
        Some(v) => Some(string_from_chars(v.as_slice())),
    }
}

/// Every occurrence of `open` in `s` has a `>` at or after it, so that scanning the tags
/// that start with `open` never runs off the end.
pub open spec fn tags_closed(s: Seq<char>, open: Seq<char>) -> bool {
    forall|i: int| #[trigger] match_at(s, open, i) ==> find_from(s, seq!['>'], i) is Some
}

/// The tags found by scanning `s` from `search`: each runs from the next occurrence of `open`
/// to the next `>` (inclusive), and the scan goes on after that `>`.
pub open spec fn tags_from(s: Seq<char>, open: Seq<char>, search: int) -> Seq<Seq<char>>
    decreases s.len() + 1 - search,
{
    if search < 0 {
        Seq::empty()
    } else {
        match find_from(s, open, search) {
            None => Seq::empty(),
            Some(abs) => match find_from(s, seq!['>'], abs) {
                None => seq![s.subrange(abs, s.len() as int)],
                Some(g) => {
                    proof {
                        lemma_find_from(s, open, search);
                        lemma_find_from(s, seq!['>'], abs);
                    }
                    seq![s.subrange(abs, g + 1)] + tags_from(s, open, g + 1)
                },
            },
        }
    }
}

/// Scans `s` for the tags that start with `open`.
fn scan_tags(s: &[char], open: &[char]) -> (r: Vec<Vec<char>>)
    requires
        tags_closed(s@, open@),
    ensures
        r@.map_values(|v: Vec<char>| v@) == tags_from(s@, open@, 0),
{
    let gt = vec!['>'];
    assert(gt@ =~= seq!['>']);
    let mut out: Vec<Vec<char>> = Vec::new();
    let mut search: usize = 0;
    while search <= s.len()
        invariant
            tags_closed(s@, open@),
            gt@ == seq!['>'],
            search <= s@.len() + 1,
            out@.map_values(|v: Vec<char>| v@) + tags_from(s@, open@, search as int) == tags_from(
                s@,
                open@,
                0,
            ),
        decreases s@.len() + 1 - search,
    {
        match chars_find_from(s, open, search) {
            None => {
                assert(tags_from(s@, open@, search as int) =~= Seq::<Seq<char>>::empty());
                assert(out@.map_values(|v: Vec<char>| v@) =~= tags_from(s@, open@, 0));
                return out;
            },
            Some(abs) => {
                proof {
                    lemma_find_from(s@, open@, search as int);
                    assert(match_at(s@, open@, abs as int));
                }
                match chars_find_from(s, gt.as_slice(), abs) {
                    None => {
                        assert(false);
                        return out;
                    },
                    Some(g) => {
                        proof {
                            lemma_find_from(s@, gt@, abs as int);
                        }
                        let tag = copy_range(s, abs, g + 1);
                        let ghost before = out@.map_values(|v: Vec<char>| v@);
                        out.push(tag);
                        assert(out@.map_values(|v: Vec<char>| v@) =~= before + seq![tag@]);
                        search = g + 1;
                    },
                }
            },
        }
    }
    assert(tags_from(s@, open@, search as int) =~= Seq::<Seq<char>>::empty()) by {
        lemma_find_from(s@, open@, search as int);
    }
    assert(out@.map_values(|v: Vec<char>| v@) =~= tags_from(s@, open@, 0));
    out
}

/// The value of an optional attribute, empty where it is missing.
pub open spec fn or_empty(v: Option<Seq<char>>) -> Seq<char> {
    match v {
        Some(x) => x,
        None => Seq::empty(),
    }
}

/// The sheets of the scanned `<sheet` tags: each tag with a `name` attribute gives
/// (name, `r:id` or empty); tags without a name are skipped.
pub open spec fn sheets_of_tags(tags: Seq<Seq<char>>) -> Seq<(Seq<char>, Seq<char>)>
    decreases tags.len(),
{
    if tags.len() == 0 {
        Seq::empty()
    } else {
        let rest = sheets_of_tags(tags.drop_last());
        match spec_attr(tags.last(), "name"@) {
            Some(n) => rest.push((n, or_empty(spec_attr(tags.last(), "r:id"@)))),
            None => rest,
        }
    }
}

/// The (name, relationship id) pairs of the `<sheet .../>` tags of a workbook, in order.
pub open spec fn spec_parse_sheets(wb: Seq<char>) -> Seq<(Seq<char>, Seq<char>)> {
    sheets_of_tags(tags_from(wb, "<sheet"@, 0))
}

/// The relationships of the scanned `<Relationship` tags: each tag whose `Id` and `Target`
/// are both present and non-empty gives (id, target).
pub open spec fn rels_of_tags(tags: Seq<Seq<char>>) -> Seq<(Seq<char>, Seq<char>)>
    decreases tags.len(),
{
    if tags.len() == 0 {
        Seq::empty()
    } else {
        let rest = rels_of_tags(tags.drop_last());
        let id = or_empty(spec_attr(tags.last(), "Id"@));
        let target = or_empty(spec_attr(tags.last(), "Target"@));
        if id.len() > 0 && target.len() > 0 {
            rest.push((id, target))
        } else {
            rest
        }
    }
}

/// The (id, target) pairs of the `<Relationship .../>` tags of a `.rels` part, in order; where
/// an id occurs twice, the later pair is the one that counts.
pub open spec fn spec_parse_rels(rels: Seq<char>) -> Seq<(Seq<char>, Seq<char>)> {
    rels_of_tags(tags_from(rels, "<Relationship"@, 0))
}

/// The views of a list of string pairs.
pub open spec fn pair_views(v: Seq<(String, String)>) -> Seq<(Seq<char>, Seq<char>)> {
    v.map_values(|p: (String, String)| (p.0@, p.1@))
}

fn attr_lit(tag: &[char], name: &str) -> (r: Option<Vec<char>>)
    ensures
        r matches Some(v) ==> spec_attr(tag@, name@) == Some(v@),
        r is None ==> spec_attr(tag@, name@) is None,
{
    let n = chars_of(name);
    attr_chars(tag, n.as_slice())
}

/// The sheets listed by `xl/workbook.xml`: (name, relationship id) for each `<sheet` tag that
/// has a `name` attribute, the id empty where `r:id` is missing.
pub fn parse_sheets(wb: &str) -> (r: Vec<(String, String)>)
    requires
        tags_closed(wb@, "<sheet"@),
    ensures
        pair_views(r@) == spec_parse_sheets(wb@),
{
    let w = chars_of(wb);
    let open = chars_of("<sheet");
    let tags = scan_tags(w.as_slice(), open.as_slice());
    let ghost tv = tags@.map_values(|v: Vec<char>| v@);
    let mut out: Vec<(String, String)> = Vec::new();
    let mut i: usize = 0;
    while i < tags.len()
        invariant
            0 <= i <= tags@.len(),
            tv == tags@.map_values(|v: Vec<char>| v@),
            pair_views(out@) == sheets_of_tags(tv.take(i as int)),
        decreases tags@.len() - i,
    {
        let ghost before = out@;
        assert(tv.take(i + 1).drop_last() =~= tv.take(i as int));
        assert(tv.take(i + 1).last() == tags@[i as int]@);
        let tag = tags[i].as_slice();
        match attr_lit(tag, "name") {
            Some(name) => {
                let rid = match attr_lit(tag, "r:id") {
                    Some(v) => v,
                    None => Vec::new(),
                };
                assert(rid@ == or_empty(spec_attr(tag@, "r:id"@)));
                out.push((string_from_chars(name.as_slice()), string_from_chars(rid.as_slice())));
                assert(pair_views(out@) =~= pair_views(before).push((name@, rid@)));
            },
            None => {},
        }
        i = i + 1;
    }
    assert(tv.take(tags@.len() as int) =~= tv);
    out
}

/// The relationships of a `.rels` part: (Id, Target) for each `<Relationship` tag whose `Id`
/// and `Target` are both present and non-empty, in document order.
pub fn parse_rels(rels: &str) -> (r: Vec<(String, String)>)
    requires
        tags_closed(rels@, "<Relationship"@),
    ensures
        pair_views(r@) == spec_parse_rels(rels@),
{
    let w = chars_of(rels);
    let open = chars_of("<Relationship");
    let tags = scan_tags(w.as_slice(), open.as_slice());
    let ghost tv = tags@.map_values(|v: Vec<char>| v@);
    let mut out: Vec<(String, String)> = Vec::new();
    let mut i: usize = 0;
    while i < tags.len()
        invariant
            0 <= i <= tags@.len(),
            tv == tags@.map_values(|v: Vec<char>| v@),
            pair_views(out@) == rels_of_tags(tv.take(i as int)),
        decreases tags@.len() - i,
    {
        let ghost before = out@;
        assert(tv.take(i + 1).drop_last() =~= tv.take(i as int));
        assert(tv.take(i + 1).last() == tags@[i as int]@);
        let tag = tags[i].as_slice();
        let id = match attr_lit(tag, "Id") {
            Some(v) => v,
            None => Vec::new(),
        };
        let target = match attr_lit(tag, "Target") {
            Some(v) => v,
            None => Vec::new(),
        };
        if id.len() > 0 && target.len() > 0 {
            out.push((string_from_chars(id.as_slice()), string_from_chars(target.as_slice())));
            assert(pair_views(out@) =~= pair_views(before).push((id@, target@)));
        }
        i = i + 1;
    }
    assert(tv.take(tags@.len() as int) =~= tv);
    out
}

} // verus!

verus! {

/// Whether every occurrence of `open` in `s` has a `>` at or after it.
pub fn check_tags_closed(s: &str, open: &str) -> (r: bool)
    requires
        open@.len() > 0,
    ensures
        r == tags_closed(s@, open@),
{
    let v = chars_of(s);
    let o = chars_of(open);
    let n = v.len();
    let mut i: usize = n;
    let mut gt_seen = false;
    while i > 0
        invariant
            n == v@.len(),
            v@ == s@,
            o@ == open@,
            o@.len() > 0,
            0 <= i <= n,
            gt_seen <==> exists|j: int| i <= j < n && v@[j] == '>',
            forall|k: int| i <= k ==> #[trigger] match_at(v@, o@, k) ==> gt_seen_at(v@, k),
        decreases i,
    {
        i = i - 1;
        if v[i] == '>' {
            gt_seen = true;
        }
        assert(gt_seen <==> exists|j: int| i <= j < n && v@[j] == '>') by {
            if gt_seen && v@[i as int] != '>' {
                let j = choose|j: int| i + 1 <= j < n && v@[j] == '>';
                assert(i <= j < n && v@[j] == '>');
            }
        }
        if chars_match_at(v.as_slice(), o.as_slice(), i) && !gt_seen {
            proof {
                lemma_find_char(v@, '>', i as int);
                assert(match_at(v@, o@, i as int));
                assert(!(exists|j: int| i <= j < v@.len() && v@[j] == '>'));
                assert(find_from(v@, seq!['>'], i as int) is None);
                assert(match_at(s@, open@, i as int));
                assert(!tags_closed(s@, open@));
            }
            return false;
        }
    }
    proof {
        assert forall|k: int| #[trigger] match_at(v@, o@, k) implies find_from(
            v@,
            seq!['>'],
            k,
        ) is Some by {
            lemma_find_char(v@, '>', k);
        }
    }
    true
}

spec fn gt_seen_at(s: Seq<char>, k: int) -> bool {
    exists|j: int| k <= j < s.len() && s[j] == '>'
}

} // verus!

verus! {

/// `s` without its leading `/` characters.
pub open spec fn strip_leading_slashes(s: Seq<char>) -> Seq<char>
    decreases s.len(),
{
    if s.len() > 0 && s[0] == '/' {
        strip_leading_slashes(s.drop_first())
    } else {
        s
    }
}

/// A relationship target as a path inside the package: leading slashes removed, and `xl/` put
/// in front unless it already starts with it.
pub open spec fn spec_resolve_target(target: Seq<char>) -> Seq<char> {
    let t = strip_leading_slashes(target);
    if starts_with(t, "xl/"@) {
        t
    } else {
        "xl/"@ + t
    }
}

fn resolve_target_chars(target: &[char]) -> (r: Vec<char>)
    ensures
        r@ == spec_resolve_target(target@),
{
    let mut k: usize = 0;
    assert(target@.skip(0) =~= target@);
    while k < target.len() && target[k] == '/'
        invariant
            0 <= k <= target@.len(),
            strip_leading_slashes(target@) == strip_leading_slashes(target@.skip(k as int)),
        decreases target@.len() - k,
    {
        assert(target@.skip(k as int).drop_first() =~= target@.skip(k + 1));
        k = k + 1;
    }
    let t = copy_range(target, k, target.len());
    assert(t@ =~= target@.skip(k as int));
    assert(strip_leading_slashes(t@) == t@);
    let xl = chars_of("xl/");
    if chars_start_with(t.as_slice(), xl.as_slice()) {
        t
    } else {
        let mut out = xl;
        push_all(&mut out, t.as_slice());
        out
    }
}

/// The package path of a relationship target (relative to `xl/`): leading slashes removed,
/// and `xl/` prefixed unless already there.
pub fn resolve_target(target: &str) -> (r: String)
    ensures
        r@ == spec_resolve_target(target@),
{
    let t = chars_of(target);
    let v = resolve_target_chars(t.as_slice());
    string_from_chars(v.as_slice())
}

/// The value of the last pair in `pairs` whose key is `key` (as a map into which the pairs
/// were inserted in order).
pub open spec fn lookup_last(pairs: Seq<(Seq<char>, Seq<char>)>, key: Seq<char>) -> Option<
    Seq<char>,
>
    decreases pairs.len(),
{
    if pairs.len() == 0 {
        None
    } else if pairs.last().0 == key {
        Some(pairs.last().1)
    } else {
        lookup_last(pairs.drop_last(), key)
    }
}

/// Looks up `key` in `pairs` as in a map filled in order: the value of the last pair with
/// that key.
pub fn find_last(pairs: &Vec<(String, String)>, key: &str) -> (r: Option<String>)
    ensures
        r matches Some(v) ==> lookup_last(pair_views(pairs@), key@) == Some(v@),
        r is None ==> lookup_last(pair_views(pairs@), key@) is None,
{
    let ghost pv = pair_views(pairs@);
    let mut i = pairs.len();
    assert(pv.take(i as int) =~= pv);
    while i > 0
        invariant
            0 <= i <= pairs@.len(),
            pv == pair_views(pairs@),
            lookup_last(pv, key@) == lookup_last(pv.take(i as int), key@),
        decreases i,
    {
        assert(pv.take(i as int).drop_last() =~= pv.take(i - 1));
        assert(pv.take(i as int).last() == pv[i - 1]);
        if str_eq(pairs[i - 1].0.as_str(), key) {
            return Some(pairs[i - 1].1.clone());
        }
        i = i - 1;
    }
    None
}

/// The path that the `n`-th sheet without a resolvable relationship is given:
/// `xl/worksheets/sheet<n>.xml`.
pub open spec fn fallback_sheet_path(n: nat) -> Seq<char> {
    "xl/worksheets/sheet"@ + decimal_digits(n) + ".xml"@
}

/// The (path, name) pairs of the first `k` sheets, with the number the next sheet without a
/// resolvable relationship gets.
pub open spec fn assign_sheet_paths(
    sheets: Seq<(Seq<char>, Seq<char>)>,
    rels: Seq<(Seq<char>, Seq<char>)>,
    k: nat,
) -> (Seq<(Seq<char>, Seq<char>)>, nat)
    decreases k,
{
    if k == 0 {
        (Seq::empty(), 1)
    } else {
        let (prev, next) = assign_sheet_paths(sheets, rels, (k - 1) as nat);
        let (name, rid) = sheets[k - 1];
        match lookup_last(rels, rid) {
            Some(t) => (prev.push((spec_resolve_target(t), name)), next),
            None => (prev.push((fallback_sheet_path(next), name)), next + 1),
        }
    }
}

/// The worksheet path → sheet name pairs of a spreadsheet, given the text of its workbook
/// part and of the workbook's relationships (where they could be read): each sheet's path is
/// its relationship's target, or else the next numbered `sheet<n>.xml`.
pub open spec fn spec_sheet_paths(wb: Option<Seq<char>>, rels: Option<Seq<char>>) -> Seq<
    (Seq<char>, Seq<char>),
> {
    match wb {
        None => Seq::empty(),
        Some(w) => {
            let sheets = spec_parse_sheets(w);
            let r = match rels {
                Some(x) => spec_parse_rels(x),
                None => Seq::empty(),
            };
            assign_sheet_paths(sheets, r, sheets.len()).0
        },
    }
}

/// The workbook (and, where it lists sheets, its relationships) can be scanned.
pub open spec fn sheet_texts_scannable(wb: Option<Seq<char>>, rels: Option<Seq<char>>) -> bool {
    match wb {
        None => true,
        Some(w) => tags_closed(w, "<sheet"@) && (spec_parse_sheets(w).len() > 0 && rels is Some
            ==> tags_closed(rels.unwrap(), "<Relationship"@)),
    }
}

/// The view of an optional string.
pub open spec fn opt_view(o: Option<&str>) -> Option<Seq<char>> {
    match o {
        Some(s) => Some(s@),
        None => None,
    }
}

/// The worksheet path → sheet name pairs of a spreadsheet, from the text of
/// `xl/workbook.xml` and `xl/_rels/workbook.xml.rels` (`None` where a part could not be read).
/// Later pairs override earlier ones with the same path.
pub fn sheet_paths(wb: Option<&str>, rels: Option<&str>) -> (r: Vec<(String, String)>)
    requires
        sheet_texts_scannable(opt_view(wb), opt_view(rels)),
    ensures
        pair_views(r@) == spec_sheet_paths(opt_view(wb), opt_view(rels)),
{
    let mut out: Vec<(String, String)> = Vec::new();
    let w = match wb {
        None => {
            return out;
        },
        Some(w) => w,
    };
    let sheets = parse_sheets(w);
    if sheets.len() == 0 {
        assert(pair_views(out@) =~= spec_sheet_paths(
            opt_view(wb),
            opt_view(rels),
        ));
        return out;
    }
    let rid_target: Vec<(String, String)> = match rels {
        Some(x) => parse_rels(x),
        None => Vec::new(),
    };
    let ghost sv = pair_views(sheets@);
    let ghost rv = pair_views(rid_target@);
    assert(rv == match opt_view(rels) {
        Some(x) => spec_parse_rels(x),
        None => Seq::empty(),
    });
    let mut fallback_no: u128 = 1;
    let mut i: usize = 0;
    while i < sheets.len()
        invariant
            0 <= i <= sheets@.len(),
            sv == pair_views(sheets@),
            rv == pair_views(rid_target@),
            assign_sheet_paths(sv, rv, i as nat) == (pair_views(out@), fallback_no as nat),
            fallback_no <= i + 1,
        decreases sheets@.len() - i,
    {
        let ghost before = pair_views(out@);
        let path: String = match find_last(&rid_target, sheets[i].1.as_str()) {
            Some(t) => resolve_target(t.as_str()),
            None => {
                let mut p: Vec<char> = chars_of("xl/worksheets/sheet");
                push_decimal(&mut p, fallback_no);
                push_str(&mut p, ".xml");
                fallback_no = fallback_no + 1;
                string_from_chars(p.as_slice())
            },
        };
        out.push((path, sheets[i].0.clone()));
        assert(pair_views(out@) =~= before.push((path@, sheets@[i as int].0@)));
        i = i + 1;
    }
    out
}

} // verus!
