//! Character-sequence helpers and the classification of entry paths by extension.
use crate::stdx::{chars_of, str_lowercase, to_lowercase};
use vstd::string::*;
use vstd::prelude::*;

verus! {

/// `s` ends with `suffix`.
pub open spec fn ends_with(s: Seq<char>, suffix: Seq<char>) -> bool {
    suffix.len() <= s.len() && s.subrange(s.len() - suffix.len(), s.len() as int) == suffix
}

/// `s` starts with `prefix`.
pub open spec fn starts_with(s: Seq<char>, prefix: Seq<char>) -> bool {
    prefix.len() <= s.len() && s.subrange(0, prefix.len() as int) == prefix
}

/// `s` ends with one of `suffixes`.
pub open spec fn ends_with_any(s: Seq<char>, suffixes: Seq<Seq<char>>) -> bool {
    exists|i: int| 0 <= i < suffixes.len() && ends_with(s, #[trigger] suffixes[i])
}

/// Whether `s` ends with `suffix`.
pub fn chars_end_with(s: &[char], suffix: &[char]) -> (r: bool)
    ensures
        r == ends_with(s@, suffix@),
{
    if suffix.len() > s.len() {
        return false;
    }
    let off = s.len() - suffix.len();
    let mut i: usize = 0;
    while i < suffix.len()
        invariant
            off + suffix@.len() == s@.len(),
            s@.len() <= usize::MAX,
            0 <= i <= suffix@.len(),
            forall|j: int| 0 <= j < i ==> s@[off + j] == suffix@[j],
        decreases suffix@.len() - i,
    {
        if s[off + i] != suffix[i] {
            assert(s@.subrange(off as int, s@.len() as int)[i as int] != suffix@[i as int]);
            return false;
        }
        i = i + 1;
    }
    assert(s@.subrange(off as int, s@.len() as int) =~= suffix@);
    true
}

/// Whether `s` starts with `prefix`.
pub fn chars_start_with(s: &[char], prefix: &[char]) -> (r: bool)
    ensures
        r == starts_with(s@, prefix@),
{
    if prefix.len() > s.len() {
        return false;
    }
    let mut i: usize = 0;
    while i < prefix.len()
        invariant
            prefix@.len() <= s@.len(),
            0 <= i <= prefix@.len(),
            forall|j: int| 0 <= j < i ==> s@[j] == prefix@[j],
        decreases prefix@.len() - i,
    {
        if s[i] != prefix[i] {
            assert(s@.subrange(0, prefix@.len() as int)[i as int] != prefix@[i as int]);
            return false;
        }
        i = i + 1;
    }
    assert(s@.subrange(0, prefix@.len() as int) =~= prefix@);
    true
}

/// Whether `s` ends with one of `suffixes`.
pub fn chars_end_with_any(s: &[char], suffixes: &Vec<&str>) -> (r: bool)
    ensures
        r == ends_with_any(s@, suffixes@.map_values(|x: &str| x@)),
{
    let ghost sv = suffixes@.map_values(|x: &str| x@);
    let mut i: usize = 0;
    while i < suffixes.len()
        invariant
            0 <= i <= suffixes@.len(),
            sv == suffixes@.map_values(|x: &str| x@),
            forall|j: int| 0 <= j < i ==> !ends_with(s@, #[trigger] sv[j]),
        decreases suffixes@.len() - i,
    {
        let suf = chars_of(suffixes[i]);
        if chars_end_with(s, suf.as_slice()) {
            assert(ends_with(s@, sv[i as int]));
            return true;
        }
        i = i + 1;
    }
    false
}

/// The extensions of the entries that are edited as text.
pub open spec fn text_extensions() -> Seq<Seq<char>> {
    seq![
        ".xml"@, ".rels"@, ".json"@, ".txt"@, ".csv"@, ".tsv"@, ".js"@, ".css"@, ".html"@,
        ".htm"@, ".svg"@, ".md"@, ".properties"@, ".dtd"@, ".xsd"@, ".xsl"@, ".yml"@, ".yaml"@,
        ".rng"@,
    ]
}

/// The extensions of the entries that are previewed as images (svg stays text).
pub open spec fn image_extensions() -> Seq<Seq<char>> {
    seq![".png"@, ".jpg"@, ".jpeg"@, ".gif"@, ".bmp"@, ".webp"@, ".ico"@, ".tif"@, ".tiff"@]
}

fn text_extension_list() -> (r: Vec<&'static str>)
    ensures
        r@.map_values(|x: &str| x@) == text_extensions(),
{
    let r = vec![
        ".xml", ".rels", ".json", ".txt", ".csv", ".tsv", ".js", ".css", ".html", ".htm", ".svg",
        ".md", ".properties", ".dtd", ".xsd", ".xsl", ".yml", ".yaml", ".rng",
    ];
    assert(r@.map_values(|x: &str| x@) =~= text_extensions());
    r
}

fn image_extension_list() -> (r: Vec<&'static str>)
    ensures
        r@.map_values(|x: &str| x@) == image_extensions(),
{
    let r = vec![".png", ".jpg", ".jpeg", ".gif", ".bmp", ".webp", ".ico", ".tif", ".tiff"];
    assert(r@.map_values(|x: &str| x@) =~= image_extensions());
    r
}

/// An entry is editable text: its path does not end with `/`, and its lower-cased path
/// ends with one of the text extensions.
pub open spec fn spec_is_textual(path: Seq<char>, lowered: Seq<char>) -> bool {
    !ends_with(path, seq!['/']) && ends_with_any(lowered, text_extensions())
}

/// An entry is a previewable image: its lower-cased path ends with an image extension.
pub open spec fn spec_is_image(lowered: Seq<char>) -> bool {
    ends_with_any(lowered, image_extensions())
}

/// Decides whether an entry is editable text, given its path and its lower-cased path.
pub fn textual_by_lowered(path: &str, lowered: &str) -> (r: bool)
    ensures
        r == spec_is_textual(path@, lowered@),
{
    let p = chars_of(path);
    let slash = vec!['/'];
    if chars_end_with(p.as_slice(), slash.as_slice()) {
        assert(slash@ =~= seq!['/']);
        return false;
    }
    assert(slash@ =~= seq!['/']);
    let l = chars_of(lowered);
    chars_end_with_any(l.as_slice(), &text_extension_list())
}

/// Whether the entry at `path` is a text file that may be viewed and written as text.
pub fn is_textual_entry(path: &str) -> (r: bool)
    ensures
        r == spec_is_textual(path@, str_lowercase(path@)),
{
    let lowered = to_lowercase(path);
    textual_by_lowered(path, lowered.as_str())
}

/// Decides whether an entry is a previewable image, given its lower-cased path.
pub fn image_by_lowered(lowered: &str) -> (r: bool)
    ensures
        r == spec_is_image(lowered@),
{
    let l = chars_of(lowered);
    chars_end_with_any(l.as_slice(), &image_extension_list())
}

/// Whether the entry at `path` is an image that may be previewed.
pub fn is_image_path(path: &str) -> (r: bool)
    ensures
        r == spec_is_image(str_lowercase(path@)),
{
    let lowered = to_lowercase(path);
    image_by_lowered(lowered.as_str())
}

/// The package kind named by a lower-cased file path.
pub open spec fn spec_kind(lowered: Seq<char>) -> Seq<char> {
    if ends_with(lowered, ".docx"@) || ends_with(lowered, ".docm"@) {
        "docx"@
    } else if ends_with(lowered, ".xlsx"@) || ends_with(lowered, ".xlsm"@) {
        "xlsx"@
    } else if ends_with(lowered, ".pptx"@) || ends_with(lowered, ".pptm"@) {
        "pptx"@
    } else {
        "ooxml"@
    }
}

fn lit_suffix(l: &[char], suffix: &str) -> (r: bool)
    ensures
        r == ends_with(l@, suffix@),
{
    let s = chars_of(suffix);
    chars_end_with(l, s.as_slice())
}

/// The package kind, given the lower-cased file path.
pub fn kind_from_lowered(lowered: &str) -> (r: String)
    ensures
        r@ == spec_kind(lowered@),
{
    let l = chars_of(lowered);
    let s = l.as_slice();
    if lit_suffix(s, ".docx") || lit_suffix(s, ".docm") {
        String::from_str("docx")
    } else if lit_suffix(s, ".xlsx") || lit_suffix(s, ".xlsm") {
        String::from_str("xlsx")
    } else if lit_suffix(s, ".pptx") || lit_suffix(s, ".pptm") {
        String::from_str("pptx")
    } else {
        String::from_str("ooxml")
    }
}

/// The package kind of a file: `docx`, `xlsx`, `pptx` (macro-enabled variants included), or
/// `ooxml` for anything else.
pub fn detect_kind(file_path: &str) -> (r: String)
    ensures
        r@ == spec_kind(str_lowercase(file_path@)),
{
    let lowered = to_lowercase(file_path);
    kind_from_lowered(lowered.as_str())
}

} // verus!

verus! {

/// `pat` occurs in `s` at position `i`.
pub open spec fn match_at(s: Seq<char>, pat: Seq<char>, i: int) -> bool {
    0 <= i && i + pat.len() <= s.len() && s.subrange(i, i + pat.len()) == pat
}

/// The first position at or after `from` where `pat` occurs in `s` (as `str::find` on the
/// rest of the string gives it, counted from the start).
pub open spec fn find_from(s: Seq<char>, pat: Seq<char>, from: int) -> Option<int>
    decreases s.len() + 1 - from,
{
    if from < 0 || from + pat.len() > s.len() {
        None
    } else if match_at(s, pat, from) {
        Some(from)
    } else {
        find_from(s, pat, from + 1)
    }
}

/// What `find_from` gives: the first occurrence at or after `from`.
pub proof fn lemma_find_from(s: Seq<char>, pat: Seq<char>, from: int)
    requires
        0 <= from,
    ensures
        find_from(s, pat, from) matches Some(i) ==> from <= i && i + pat.len() <= s.len()
            && match_at(s, pat, i) && (forall|k: int| from <= k < i ==> !match_at(s, pat, k)),
        find_from(s, pat, from) is None ==> forall|k: int| from <= k ==> !match_at(s, pat, k),
    decreases s.len() + 1 - from,
{
    if from + pat.len() > s.len() {
    } else if match_at(s, pat, from) {
    } else {
        lemma_find_from(s, pat, from + 1);
    }
}

/// The first position at or after `from` where `pat` occurs in `s`.
pub fn chars_find_from(s: &[char], pat: &[char], from: usize) -> (r: Option<usize>)
    ensures
        r matches Some(i) ==> find_from(s@, pat@, from as int) == Some(i as int),
        r is None ==> find_from(s@, pat@, from as int) is None,
{
    if pat.len() > s.len() {
        proof {
            lemma_find_from(s@, pat@, from as int);
            assert(find_from(s@, pat@, from as int) is None);
        }
        return None;
    }
    let last = s.len() - pat.len();
    let mut i = from;
    while i <= last
        invariant
            last + pat@.len() == s@.len(),
            s@.len() <= usize::MAX,
            from <= i,
            i == from || i <= last + 1,
            i <= last + 1 ==> find_from(s@, pat@, from as int) == find_from(s@, pat@, i as int),
        decreases last + 1 - i,
    {
        let mut j: usize = 0;
        let mut ok = true;
        while j < pat.len()
            invariant
                i <= last,
                last + pat@.len() == s@.len(),
                s@.len() <= usize::MAX,
                0 <= j <= pat@.len(),
                ok <==> forall|k: int| 0 <= k < j ==> s@[i + k] == pat@[k],
            decreases pat@.len() - j,
        {
            if s[i + j] != pat[j] {
                ok = false;
            }
            j = j + 1;
        }
        if ok {
            assert(s@.subrange(i as int, i + pat@.len()) =~= pat@);
            return Some(i);
        }
        assert(!match_at(s@, pat@, i as int)) by {
            if match_at(s@, pat@, i as int) {
                let k = choose|k: int| 0 <= k < pat@.len() && s@[i + k] != pat@[k];
                assert(s@.subrange(i as int, i + pat@.len())[k] == s@[i + k]);
            }
        }
        i = i + 1;
    }
    assert(find_from(s@, pat@, i as int) is None);
    None
}

} // verus!

verus! {

/// Whether `pat` occurs in `s` at position `i`.
pub fn chars_match_at(s: &[char], pat: &[char], i: usize) -> (r: bool)
    ensures
        r == match_at(s@, pat@, i as int),
{
    if i > s.len() || pat.len() > s.len() - i {
        return false;
    }
    let mut j: usize = 0;
    while j < pat.len()
        invariant
            i + pat@.len() <= s@.len(),
            s@.len() <= usize::MAX,
            0 <= j <= pat@.len(),
            forall|k: int| 0 <= k < j ==> s@[i + k] == pat@[k],
        decreases pat@.len() - j,
    {
        if s[i + j] != pat[j] {
            assert(s@.subrange(i as int, i + pat@.len())[j as int] != pat@[j as int]);
            return false;
        }
        j = j + 1;
    }
    assert(s@.subrange(i as int, i + pat@.len()) =~= pat@);
    true
}

/// A single character occurs in `s` at or after `from` exactly when `find_from` finds it.
pub proof fn lemma_find_char(s: Seq<char>, c: char, from: int)
    requires
        0 <= from,
    ensures
        find_from(s, seq![c], from) is Some <==> exists|j: int| from <= j < s.len() && s[j] == c,
{
    lemma_find_from(s, seq![c], from);
    if let Some(j) = find_from(s, seq![c], from) {
        assert(s.subrange(j, j + 1)[0] == s[j]);
    } else {
        assert forall|j: int| from <= j < s.len() implies s[j] != c by {
            if s[j] == c {
                assert(s.subrange(j, j + 1) =~= seq![c]);
                assert(match_at(s, seq![c], j));
            }
        }
    }
}

/// Where `s[j]` is the first `c` at or after `from`, `find_from` finds it at `j`.
pub proof fn lemma_find_char_at(s: Seq<char>, c: char, from: int, j: int)
    requires
        0 <= from <= j < s.len(),
        s[j] == c,
        forall|k: int| from <= k < j ==> s[k] != c,
    ensures
        find_from(s, seq![c], from) == Some(j),
    decreases j - from,
{
    if s[from] == c {
        assert(s.subrange(from, from + 1) =~= seq![c]);
    } else {
        assert(s.subrange(from, from + 1)[0] == s[from]);
        lemma_find_char_at(s, c, from + 1, j);
    }
}

/// Where no `c` occurs at or after `from`, `find_from` finds none.
pub proof fn lemma_find_char_none(s: Seq<char>, c: char, from: int)
    requires
        0 <= from,
        forall|k: int| from <= k < s.len() ==> s[k] != c,
    ensures
        find_from(s, seq![c], from) is None,
    decreases s.len() + 1 - from,
{
    if from + 1 <= s.len() {
        assert(s.subrange(from, from + 1)[0] == s[from]);
        lemma_find_char_none(s, c, from + 1);
    }
}

} // verus!
