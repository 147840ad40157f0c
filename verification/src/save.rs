//! Saving changes to a package: adding, updating and deleting entries in one pass. Entries
//! that are not touched are copied with their compressed data unchanged.
use crate::error::ViewerError;
use crate::stdx::{bytes_of, str_eq, str_lowercase};
use crate::text::{is_textual_entry, spec_is_textual};
use crate::types::EntryChange;
use crate::workbook::lookup_last;
use crate::zip_io::{
    archive_entries, archive_from_bytes, archive_index_for_name, archive_len,
    archive_raw_entry_info, has_entry_named, io_error_text, names_distinct, reads_back_as,
    time_for_new_entries, writer_entries, writer_finish, writer_new, writer_raw_copy,
    writer_start_entry, writer_write_all, zip_error_text, zip_parse, ArchiveWriter,
    archive_name_at, archive_stored, data_fits, has_written_named, name_fits, names_fit,
    stored_as, writer_stored, written_fit, zip_stored, archive_times, time_or_default, times_as,
    writer_in_entry, writer_start_entry_like, writer_times, zip_times,
};
use crate::package::all_readable;
use std::io::Cursor;
use vstd::prelude::*;
use zip::ZipArchive;

verus! {

/// The (path, content) views of a list of changes.
pub open spec fn change_views(v: Seq<EntryChange>) -> Seq<(Seq<char>, Seq<char>)> {
    v.map_values(|c: EntryChange| (c.path@, c.content@))
}

/// The views of a list of strings.
pub open spec fn string_views(v: Seq<String>) -> Seq<Seq<char>> {
    v.map_values(|s: String| s@)
}

/// The first of the changes whose path is not that of a text entry.
pub open spec fn first_non_textual(changes: Seq<(Seq<char>, Seq<char>)>) -> Option<Seq<char>>
    decreases changes.len(),
{
    if changes.len() == 0 {
        None
    } else if !spec_is_textual(changes[0].0, str_lowercase(changes[0].0)) {
        Some(changes[0].0)
    } else {
        first_non_textual(changes.drop_first())
    }
}

/// The new content of an existing entry: the last add with its path, else the last update
/// with its path.
pub open spec fn replacement(
    adds: Seq<(Seq<char>, Seq<char>)>,
    updates: Seq<(Seq<char>, Seq<char>)>,
    name: Seq<char>,
) -> Option<Seq<char>> {
    match lookup_last(adds, name) {
        Some(c) => Some(c),
        None => lookup_last(updates, name),
    }
}

/// The entries written for the first `k` entries of the archive, with the bytes of content
/// written for them: deleted entries are dropped, entries with a replacement get the UTF-8
/// bytes of it, and the others keep their contents.
pub open spec fn kept_part(
    es: Seq<(Seq<char>, u64, u64, Option<Seq<u8>>)>,
    adds: Seq<(Seq<char>, Seq<char>)>,
    updates: Seq<(Seq<char>, Seq<char>)>,
    deletes: Seq<Seq<char>>,
    k: nat,
) -> (Seq<(Seq<char>, Option<Seq<u8>>)>, nat)
    decreases k,
{
    if k == 0 || k > es.len() {
        (Seq::empty(), 0)
    } else {
        let (prev, written) = kept_part(es, adds, updates, deletes, (k - 1) as nat);
        let name = es[k - 1].0;
        if deletes.contains(name) {
            (prev, written)
        } else {
            match replacement(adds, updates, name) {
                Some(c) => {
                    let b = vstd::utf8::encode_utf8(c);
                    (prev.push((name, Some(b))), written + b.len())
                },
                None => (prev.push((name, es[k - 1].3)), written),
            }
        }
    }
}

/// How the entries written for the first `k` existing entries are stored, where that is
/// known: an entry copied raw (neither deleted nor replaced, and readable) keeps its stored
/// form from `st`; a replaced entry is written anew (`None`).
pub open spec fn kept_stored(
    es: Seq<(Seq<char>, u64, u64, Option<Seq<u8>>)>,
    st: Seq<Option<(u16, u32, u64, Seq<u8>)>>,
    adds: Seq<(Seq<char>, Seq<char>)>,
    updates: Seq<(Seq<char>, Seq<char>)>,
    deletes: Seq<Seq<char>>,
    k: nat,
) -> Seq<Option<(u16, u32, u64, Seq<u8>)>>
    decreases k,
{
    if k == 0 || k > es.len() {
        Seq::empty()
    } else {
        let prev = kept_stored(es, st, adds, updates, deletes, (k - 1) as nat);
        let name = es[k - 1].0;
        if deletes.contains(name) {
            prev
        } else if replacement(adds, updates, name) is Some {
            prev.push(None)
        } else if es[k - 1].3 is Some {
            prev.push(st[k - 1])
        } else {
            prev.push(None)
        }
    }
}

/// The modification times of the entries written for the first `k` existing entries, where
/// known: a replaced entry keeps its recorded time (the default time where it records none);
/// an entry copied raw (readable) keeps its recorded time.
pub open spec fn kept_times(
    es: Seq<(Seq<char>, u64, u64, Option<Seq<u8>>)>,
    tm: Seq<Option<(u16, u16)>>,
    adds: Seq<(Seq<char>, Seq<char>)>,
    updates: Seq<(Seq<char>, Seq<char>)>,
    deletes: Seq<Seq<char>>,
    k: nat,
) -> Seq<Option<(u16, u16)>>
    decreases k,
{
    if k == 0 || k > es.len() {
        Seq::empty()
    } else {
        let prev = kept_times(es, tm, adds, updates, deletes, (k - 1) as nat);
        let name = es[k - 1].0;
        if deletes.contains(name) {
            prev
        } else if replacement(adds, updates, name) is Some {
            prev.push(Some(time_or_default(tm[k - 1])))
        } else if es[k - 1].3 is Some {
            prev.push(tm[k - 1])
        } else {
            prev.push(None)
        }
    }
}

/// An add path is taken up by an existing entry (which it then replaces in place): an entry of
/// that name exists and is not deleted.
pub open spec fn taken_up(
    es: Seq<(Seq<char>, u64, u64, Option<Seq<u8>>)>,
    deletes: Seq<Seq<char>>,
    path: Seq<char>,
) -> bool {
    has_entry_named(es, path) && !deletes.contains(path)
}

/// The `k`-th add is the first with its path.
pub open spec fn first_add(adds: Seq<(Seq<char>, Seq<char>)>, k: int) -> bool {
    forall|j: int| 0 <= j < k ==> adds[j].0 != adds[k].0
}

/// The entries appended for the first `k` adds, with the bytes of content written for them:
/// each path not taken up by an existing entry, once, in the order of its first add, with the
/// content of its last add.
pub open spec fn appended_part(
    es: Seq<(Seq<char>, u64, u64, Option<Seq<u8>>)>,
    adds: Seq<(Seq<char>, Seq<char>)>,
    deletes: Seq<Seq<char>>,
    k: nat,
) -> (Seq<(Seq<char>, Option<Seq<u8>>)>, nat)
    decreases k,
{
    if k == 0 || k > adds.len() {
        (Seq::empty(), 0)
    } else {
        let (prev, written) = appended_part(es, adds, deletes, (k - 1) as nat);
        let path = adds[k - 1].0;
        if first_add(adds, k - 1) && !taken_up(es, deletes, path) {
            let b = vstd::utf8::encode_utf8(lookup_last(adds, path).unwrap());
            (prev.push((path, Some(b))), written + b.len())
        } else {
            (prev, written)
        }
    }
}

/// The entries of the saved archive, in order: the kept entries of the existing archive (replaced
/// where changed), then the new paths of the adds.
pub open spec fn saved_entries(
    es: Seq<(Seq<char>, u64, u64, Option<Seq<u8>>)>,
    adds: Seq<(Seq<char>, Seq<char>)>,
    updates: Seq<(Seq<char>, Seq<char>)>,
    deletes: Seq<Seq<char>>,
) -> Seq<(Seq<char>, Option<Seq<u8>>)> {
    kept_part(es, adds, updates, deletes, es.len()).0 + appended_part(es, adds, deletes, adds.len()).0
}

/// The number of bytes of new content written.
pub open spec fn saved_written(
    es: Seq<(Seq<char>, u64, u64, Option<Seq<u8>>)>,
    adds: Seq<(Seq<char>, Seq<char>)>,
    updates: Seq<(Seq<char>, Seq<char>)>,
    deletes: Seq<Seq<char>>,
) -> nat {
    kept_part(es, adds, updates, deletes, es.len()).1 + appended_part(es, adds, deletes, adds.len()).1
}

/// A key that some pair has is found by `lookup_last`.
pub proof fn lemma_lookup_last_some(pairs: Seq<(Seq<char>, Seq<char>)>, i: int)
    requires
        0 <= i < pairs.len(),
    ensures
        lookup_last(pairs, pairs[i].0) is Some,
    decreases pairs.len(),
{
    if pairs.last().0 != pairs[i].0 {
        assert(i < pairs.len() - 1);
        lemma_lookup_last_some(pairs.drop_last(), i);
        assert(pairs.drop_last()[i] == pairs[i]);
    }
}

/// Whether `name` is in `list`.
fn contains_name(list: &Vec<String>, name: &str) -> (r: bool)
    ensures
        r == string_views(list@).contains(name@),
{
    let ghost v = string_views(list@);
    let mut i: usize = 0;
    while i < list.len()
        invariant
            0 <= i <= list@.len(),
            v == string_views(list@),
            forall|j: int| 0 <= j < i ==> v[j] != name@,
        decreases list@.len() - i,
    {
        if str_eq(list[i].as_str(), name) {
            assert(v[i as int] == name@);
            return true;
        }
        i = i + 1;
    }
    assert(!v.contains(name@));
    false
}

/// The index of the last change with path `path`.
fn last_change_for(changes: &Vec<EntryChange>, path: &str) -> (r: Option<usize>)
    ensures
        r matches Some(i) ==> i < changes@.len() && lookup_last(change_views(changes@), path@) == Some(
            changes@[i as int].content@,
        ),
        r is None ==> lookup_last(change_views(changes@), path@) is None,
{
    let ghost cv = change_views(changes@);
    let mut i = changes.len();
    assert(cv.take(i as int) =~= cv);
    while i > 0
        invariant
            0 <= i <= changes@.len(),
            cv == change_views(changes@),
            lookup_last(cv, path@) == lookup_last(cv.take(i as int), path@),
        decreases i,
    {
        assert(cv.take(i as int).drop_last() =~= cv.take(i - 1));
        assert(cv.take(i as int).last() == cv[i - 1]);
        if str_eq(changes[i - 1].path.as_str(), path) {
            return Some(i - 1);
        }
        i = i - 1;
    }
    None
}

/// The first change whose path is not that of a text entry.
pub fn find_non_textual(adds: &Vec<EntryChange>, updates: &Vec<EntryChange>) -> (r: Option<String>)
    ensures
        r matches Some(p) ==> first_non_textual(change_views(adds@) + change_views(updates@)) == Some(p@),
        r is None ==> first_non_textual(change_views(adds@) + change_views(updates@)) is None,
{
    let ghost all = change_views(adds@) + change_views(updates@);
    let mut i: usize = 0;
    assert(all.skip(0) =~= all);
    while i < adds.len()
        invariant
            0 <= i <= adds@.len(),
            all == change_views(adds@) + change_views(updates@),
            first_non_textual(all) == first_non_textual(all.skip(i as int)),
        decreases adds@.len() - i,
    {
        assert(all.skip(i as int).drop_first() =~= all.skip(i + 1));
        assert(all.skip(i as int)[0] == (adds@[i as int].path@, adds@[i as int].content@));
        if !is_textual_entry(adds[i].path.as_str()) {
            return Some(adds[i].path.clone());
        }
        i = i + 1;
    }
    let mut k: usize = 0;
    while k < updates.len()
        invariant
            0 <= k <= updates@.len(),
            all == change_views(adds@) + change_views(updates@),
            first_non_textual(all) == first_non_textual(all.skip(adds@.len() + k)),
        decreases updates@.len() - k,
    {
        assert(all.skip(adds@.len() + k).drop_first() =~= all.skip(adds@.len() + k + 1));
        assert(all.skip(adds@.len() + k)[0] == (updates@[k as int].path@, updates@[k as int].content@));
        if !is_textual_entry(updates[k].path.as_str()) {
            return Some(updates[k].path.clone());
        }
        k = k + 1;
    }
    assert(all.skip(adds@.len() + k) =~= Seq::<(Seq<char>, Seq<char>)>::empty());
    None
}

/// The first `k` entries written for the existing entries are the first ones written for
/// any later `m`.
proof fn lemma_kept_prefix(
    es: Seq<(Seq<char>, u64, u64, Option<Seq<u8>>)>,
    av: Seq<(Seq<char>, Seq<char>)>,
    uv: Seq<(Seq<char>, Seq<char>)>,
    dv: Seq<Seq<char>>,
    k: nat,
    m: nat,
)
    requires
        k <= m <= es.len(),
    ensures
        kept_part(es, av, uv, dv, k).0.len() <= kept_part(es, av, uv, dv, m).0.len(),
        kept_part(es, av, uv, dv, m).0.take(kept_part(es, av, uv, dv, k).0.len() as int)
            == kept_part(es, av, uv, dv, k).0,
    decreases m,
{
    let q = kept_part(es, av, uv, dv, k).0;
    if k < m {
        lemma_kept_prefix(es, av, uv, dv, k, (m - 1) as nat);
        let p = kept_part(es, av, uv, dv, (m - 1) as nat).0;
        let c = kept_part(es, av, uv, dv, m).0;
        assert(c.take(q.len() as int) =~= p.take(q.len() as int));
    } else {
        assert(q.take(q.len() as int) =~= q);
    }
}

/// The first `k` appended entries are the first ones appended for any later `m`.
proof fn lemma_appended_prefix(
    es: Seq<(Seq<char>, u64, u64, Option<Seq<u8>>)>,
    av: Seq<(Seq<char>, Seq<char>)>,
    dv: Seq<Seq<char>>,
    k: nat,
    m: nat,
)
    requires
        k <= m <= av.len(),
    ensures
        appended_part(es, av, dv, k).0.len() <= appended_part(es, av, dv, m).0.len(),
        appended_part(es, av, dv, m).0.take(appended_part(es, av, dv, k).0.len() as int)
            == appended_part(es, av, dv, k).0,
    decreases m,
{
    let q = appended_part(es, av, dv, k).0;
    if k < m {
        lemma_appended_prefix(es, av, dv, k, (m - 1) as nat);
        let p = appended_part(es, av, dv, (m - 1) as nat).0;
        let c = appended_part(es, av, dv, m).0;
        assert(c.take(q.len() as int) =~= p.take(q.len() as int));
    } else {
        assert(q.take(q.len() as int) =~= q);
    }
}

/// The names written for the first `k` existing entries are names of those entries that are
/// not deleted.
proof fn lemma_kept_part_names(
    es: Seq<(Seq<char>, u64, u64, Option<Seq<u8>>)>,
    av: Seq<(Seq<char>, Seq<char>)>,
    uv: Seq<(Seq<char>, Seq<char>)>,
    dv: Seq<Seq<char>>,
    k: nat,
)
    requires
        k <= es.len(),
    ensures
        forall|t: int| 0 <= t < kept_part(es, av, uv, dv, k).0.len() ==> exists|j: int|
            0 <= j < k && !dv.contains(es[j].0) && #[trigger] es[j].0 == (#[trigger] kept_part(es, av, uv, dv, k).0[t]).0,
    decreases k,
{
    if k > 0 {
        lemma_kept_part_names(es, av, uv, dv, (k - 1) as nat);
        let p = kept_part(es, av, uv, dv, (k - 1) as nat).0;
        let c = kept_part(es, av, uv, dv, k).0;
        assert forall|t: int| 0 <= t < c.len() implies exists|j: int|
            0 <= j < k && !dv.contains(es[j].0) && #[trigger] es[j].0 == (#[trigger] c[t]).0 by {
            if t < p.len() {
                assert(c[t] == p[t]);
                let j = choose|j: int| 0 <= j < k - 1 && !dv.contains(es[j].0) && #[trigger] es[j].0 == p[t].0;
                assert(es[j].0 == c[t].0);
            } else {
                assert(es[k - 1].0 == c[t].0);
            }
        }
    }
}

/// The paths appended for the first `k` adds are paths of those adds.
proof fn lemma_appended_part_names(
    es: Seq<(Seq<char>, u64, u64, Option<Seq<u8>>)>,
    av: Seq<(Seq<char>, Seq<char>)>,
    dv: Seq<Seq<char>>,
    k: nat,
)
    requires
        k <= av.len(),
    ensures
        forall|t: int| 0 <= t < appended_part(es, av, dv, k).0.len() ==> exists|m: int|
            0 <= m < k && #[trigger] av[m].0 == (#[trigger] appended_part(es, av, dv, k).0[t]).0,
    decreases k,
{
    if k > 0 {
        lemma_appended_part_names(es, av, dv, (k - 1) as nat);
        let p = appended_part(es, av, dv, (k - 1) as nat).0;
        let c = appended_part(es, av, dv, k).0;
        assert forall|t: int| 0 <= t < c.len() implies exists|m: int|
            0 <= m < k && #[trigger] av[m].0 == (#[trigger] c[t]).0 by {
            if t < p.len() {
                assert(c[t] == p[t]);
                let m = choose|m: int| 0 <= m < k - 1 && #[trigger] av[m].0 == p[t].0;
                assert(av[m].0 == c[t].0);
            } else {
                assert(av[k - 1].0 == c[t].0);
            }
        }
    }
}

/// Written entries that fit, and written names that fit, hold for a prefix and for either part
/// of a concatenation.
proof fn lemma_fit_parts(x: Seq<(Seq<char>, Option<Seq<u8>>)>, y: Seq<(Seq<char>, Option<Seq<u8>>)>)
    ensures
        written_fit(x + y) ==> written_fit(x) && written_fit(y),
        names_fit(x + y) ==> names_fit(x) && names_fit(y),
        written_fit(x) && written_fit(y) ==> written_fit(x + y),
{
    assert forall|i: int| 0 <= i < x.len() implies (x + y)[i] == #[trigger] x[i] by {}
    assert forall|i: int| 0 <= i < y.len() implies (x + y)[x.len() + i] == #[trigger] y[i] by {}
    if written_fit(x) && written_fit(y) {
        assert forall|i: int| 0 <= i < (x + y).len() implies ((#[trigger] (x + y)[i]).1 matches Some(d)
            ==> data_fits(d)) by {
            if i >= x.len() {
                assert((x + y)[i] == y[i - x.len()]);
            }
        }
    }
}

/// What fits for a sequence fits for its prefixes.
proof fn lemma_fit_take(x: Seq<(Seq<char>, Option<Seq<u8>>)>, n: int)
    requires
        0 <= n <= x.len(),
    ensures
        written_fit(x) ==> written_fit(x.take(n)),
        names_fit(x) ==> names_fit(x.take(n)),
{
    assert forall|i: int| 0 <= i < n implies x.take(n)[i] == #[trigger] x[i] by {}
}

/// Writes the UTF-8 bytes of `content` into the entry just started (open and still empty).
/// It succeeds where the content fits.
fn write_content(w: &mut ArchiveWriter, content: &str) -> (r: Result<(), ViewerError>)
    requires
        writer_in_entry(*old(w)),
        writer_entries(*old(w)).len() > 0,
        writer_entries(*old(w)).last().1 == Some(Seq::<u8>::empty()),
    ensures
        r is Ok ==> writer_entries(*final(w)) == writer_entries(*old(w)).drop_last().push(
            (writer_entries(*old(w)).last().0, Some(vstd::utf8::encode_utf8(content@))),
        ),
        r is Ok ==> writer_stored(*final(w)) == writer_stored(*old(w)),
        r is Ok ==> writer_times(*final(w)) == writer_times(*old(w)),
        r matches Err(e) ==> e is Zip,
        data_fits(vstd::utf8::encode_utf8(content@)) ==> r is Ok,
{
    let data = bytes_of(content);
    assert(Seq::<u8>::empty() + data@ =~= data@);
    if let Err(e) = writer_write_all(w, data.as_slice()) {
        return Err(ViewerError::Zip(io_error_text(&e)));
    }
    assert(writer_entries(*w) =~= writer_entries(*old(w)).drop_last().push(
        (writer_entries(*old(w)).last().0, Some(data@)),
    ));
    Ok(())
}

/// Writes a new entry `name` holding the UTF-8 bytes of `content`, stamped with `now`. It
/// succeeds where the name is new and the entries written so far and the content fit.
fn write_text_entry(w: &mut ArchiveWriter, name: &str, content: &str, now: zip::DateTime) -> (r: Result<(), ViewerError>)
    requires
        name_fits(name@),
    ensures
        r is Ok ==> writer_entries(*final(w)) == writer_entries(*old(w)).push(
            (name@, Some(vstd::utf8::encode_utf8(content@))),
        ),
        r is Ok ==> writer_stored(*final(w)) == writer_stored(*old(w)).push(None),
        r is Ok ==> writer_times(*final(w)) == writer_times(*old(w)).push(None),
        r matches Err(e) ==> e is Zip,
        !has_written_named(writer_entries(*old(w)), name@) && written_fit(writer_entries(*old(w)))
            && data_fits(vstd::utf8::encode_utf8(content@)) ==> r is Ok,
{
    if let Err(e) = writer_start_entry(w, name, now) {
        return Err(ViewerError::Zip(zip_error_text(&e)));
    }
    let ghost mid = writer_entries(*w);
    write_content(w, content)?;
    assert(mid.drop_last() =~= writer_entries(*old(w)));
    Ok(())
}

/// Rewrites the `i`-th existing entry, `name`, with the UTF-8 bytes of `content`, keeping its
/// modification time. It succeeds where the entry can be read, the name is new and the entries
/// written so far and the content fit.
fn write_replacing_entry(
    w: &mut ArchiveWriter,
    a: &mut ZipArchive<Cursor<Vec<u8>>>,
    i: usize,
    name: &str,
    content: &str,
) -> (r: Result<(), ViewerError>)
    requires
        name_fits(name@),
    ensures
        archive_entries(*final(a)) == archive_entries(*old(a)),
        archive_stored(*final(a)) == archive_stored(*old(a)),
        archive_times(*final(a)) == archive_times(*old(a)),
        r is Ok ==> writer_entries(*final(w)) == writer_entries(*old(w)).push(
            (name@, Some(vstd::utf8::encode_utf8(content@))),
        ),
        r is Ok ==> writer_stored(*final(w)) == writer_stored(*old(w)).push(None),
        r is Ok ==> writer_times(*final(w)) == writer_times(*old(w)).push(
            Some(time_or_default(archive_times(*old(a))[i as int])),
        ),
        r matches Err(e) ==> e is Zip,
        i < archive_entries(*old(a)).len() && archive_entries(*old(a))[i as int].3 is Some
            && !has_written_named(writer_entries(*old(w)), name@) && written_fit(writer_entries(*old(w)))
            && data_fits(vstd::utf8::encode_utf8(content@)) ==> r is Ok,
{
    if let Err(e) = writer_start_entry_like(w, name, a, i) {
        return Err(ViewerError::Zip(zip_error_text(&e)));
    }
    let ghost mid = writer_entries(*w);
    write_content(w, content)?;
    assert(mid.drop_last() =~= writer_entries(*old(w)));
    Ok(())
}

/// Writes the entries of the existing archive: deleted ones dropped, replaced ones rewritten
/// with their new content (keeping their modification time), the rest copied raw. It succeeds
/// where every entry can be read and everything it writes fits.
fn write_kept_entries(
    w: &mut ArchiveWriter,
    a: &mut ZipArchive<Cursor<Vec<u8>>>,
    adds: &Vec<EntryChange>,
    updates: &Vec<EntryChange>,
    deletes: &Vec<String>,
) -> (r: Result<u64, ViewerError>)
    requires
        writer_entries(*old(w)) == Seq::<(Seq<char>, Option<Seq<u8>>)>::empty(),
        writer_stored(*old(w)) == Seq::<Option<(u16, u32, u64, Seq<u8>)>>::empty(),
        writer_times(*old(w)) == Seq::<Option<(u16, u16)>>::empty(),
        names_distinct(archive_entries(*old(a))),
        names_fit(kept_part(archive_entries(*old(a)), change_views(adds@), change_views(updates@),
            string_views(deletes@), archive_entries(*old(a)).len()).0),
    ensures
        archive_entries(*final(a)) == archive_entries(*old(a)),
        archive_stored(*final(a)) == archive_stored(*old(a)),
        archive_times(*final(a)) == archive_times(*old(a)),
        r is Ok ==> writer_times(*final(w)) == kept_times(archive_entries(*old(a)), archive_times(*old(a)),
            change_views(adds@), change_views(updates@), string_views(deletes@), archive_entries(*old(a)).len()),
        r is Ok ==> writer_stored(*final(w)) == kept_stored(archive_entries(*old(a)), archive_stored(*old(a)),
            change_views(adds@), change_views(updates@), string_views(deletes@), archive_entries(*old(a)).len()),
        r matches Ok(n) ==> {
            let kp = kept_part(
                archive_entries(*old(a)),
                change_views(adds@),
                change_views(updates@),
                string_views(deletes@),
                archive_entries(*old(a)).len(),
            );
            &&& writer_entries(*final(w)) == kp.0
            &&& n == (if kp.1 <= u64::MAX { kp.1 } else { u64::MAX as nat })
        },
        r matches Err(e) ==> e is Zip,
        all_readable(archive_entries(*old(a))) && written_fit(kept_part(archive_entries(*old(a)),
            change_views(adds@), change_views(updates@), string_views(deletes@),
            archive_entries(*old(a)).len()).0) ==> r is Ok,
{
    let ghost es = archive_entries(*a);
    let ghost av = change_views(adds@);
    let ghost uv = change_views(updates@);
    let ghost dv = string_views(deletes@);
    let ghost full = kept_part(es, av, uv, dv, es.len()).0;
    let ghost good = all_readable(es) && written_fit(full);
    let ghost st = archive_stored(*a);
    let ghost tm = archive_times(*a);
    let n = archive_len(a);
    let mut written: u64 = 0;
    let mut i: usize = 0;
    while i < n
        invariant
            n == es.len(),
            es == archive_entries(*old(a)),
            archive_entries(*a) == es,
            av == change_views(adds@),
            uv == change_views(updates@),
            dv == string_views(deletes@),
            full == kept_part(es, av, uv, dv, es.len()).0,
            good == (all_readable(es) && written_fit(full)),
            names_distinct(es),
            names_fit(full),
            0 <= i <= n,
            writer_entries(*w) == kept_part(es, av, uv, dv, i as nat).0,
            st == archive_stored(*old(a)),
            archive_stored(*a) == st,
            writer_stored(*w) == kept_stored(es, st, av, uv, dv, i as nat),
            tm == archive_times(*old(a)),
            archive_times(*a) == tm,
            writer_times(*w) == kept_times(es, tm, av, uv, dv, i as nat),
            written == (if kept_part(es, av, uv, dv, i as nat).1 <= u64::MAX {
                kept_part(es, av, uv, dv, i as nat).1
            } else {
                u64::MAX as nat
            }),
        decreases n - i,
    {
        let name = match archive_raw_entry_info(a, i) {
            Ok(p) => p,
            Err(e) => {
                assert(!good) by {
                    if good {
                        assert(es[i as int].3 is Some);
                    }
                }
                return Err(ViewerError::Zip(zip_error_text(&e)));
            },
        };
        let ghost prev = kept_part(es, av, uv, dv, i as nat).0;
        let ghost cur = kept_part(es, av, uv, dv, (i + 1) as nat).0;
        proof {
            lemma_kept_prefix(es, av, uv, dv, (i + 1) as nat, es.len());
            lemma_kept_part_names(es, av, uv, dv, i as nat);
            lemma_fit_take(full, cur.len() as int);
            lemma_fit_take(full, prev.len() as int);
            assert(!has_written_named(prev, es[i as int].0)) by {
                if has_written_named(prev, es[i as int].0) {
                    let t = choose|t: int| 0 <= t < prev.len() && #[trigger] prev[t].0 == es[i as int].0;
                    let j = choose|j: int| 0 <= j < i && !dv.contains(es[j].0) && #[trigger] es[j].0 == prev[t].0;
                    assert(es[j].0 == es[i as int].0);
                }
            }
            lemma_kept_prefix(es, av, uv, dv, i as nat, es.len());
            assert((((i + 1) as nat) - 1) as nat == i as nat);
            assert(cur == (if dv.contains(es[i as int].0) {
                prev
            } else {
                match replacement(av, uv, es[i as int].0) {
                    Some(c) => prev.push((es[i as int].0, Some(vstd::utf8::encode_utf8(c)))),
                    None => prev.push((es[i as int].0, es[i as int].3)),
                }
            }));
            if !dv.contains(es[i as int].0) {
                assert(cur.len() == prev.len() + 1);
                assert(cur[prev.len() as int] == full[prev.len() as int]);
                assert(name_fits(cur[prev.len() as int].0));
                assert(good ==> written_fit(prev));
                assert(good ==> (cur[prev.len() as int].1 matches Some(d) ==> data_fits(d)));
            }
        }
        if !contains_name(deletes, name.as_str()) {
            let content: Option<&str> = match last_change_for(adds, name.as_str()) {
                Some(k) => Some(adds[k].content.as_str()),
                None => match last_change_for(updates, name.as_str()) {
                    Some(k) => Some(updates[k].content.as_str()),
                    None => None,
                },
            };
            match content {
                Some(c) => {
                    proof {
                        assert(cur[prev.len() as int] == (name@, Some(vstd::utf8::encode_utf8(c@))));
                    }
                    write_replacing_entry(w, a, i, name.as_str(), c)?;
                    let len = bytes_of(c).len();
                    written = written.saturating_add(len as u64);
                },
                None => {
                    proof {
                        assert(cur[prev.len() as int] == (name@, es[i as int].3));
                    }
                    if let Err(e) = writer_raw_copy(w, a, i) {
                        assert(!good) by {
                            if good {
                                assert(es[i as int].3 is Some);
                            }
                        }
                        return Err(ViewerError::Zip(zip_error_text(&e)));
                    }
                },
            }
        }
        i = i + 1;
    }
    Ok(written)
}

/// Appends the entries for the adds whose paths no kept entry took up: each path once, in the
/// order of its first add, with the content of its last add, stamped with `now`. The entries
/// already written must be kept existing entries; it succeeds where those and the new ones fit.
fn write_new_entries(
    w: &mut ArchiveWriter,
    a: &ZipArchive<Cursor<Vec<u8>>>,
    adds: &Vec<EntryChange>,
    deletes: &Vec<String>,
    now: zip::DateTime,
) -> (r: Result<u64, ViewerError>)
    requires
        names_fit(appended_part(archive_entries(*a), change_views(adds@), string_views(deletes@), adds@.len()).0),
        forall|t: int| 0 <= t < writer_entries(*old(w)).len() ==> taken_up(archive_entries(*a),
            string_views(deletes@), (#[trigger] writer_entries(*old(w))[t]).0),
    ensures
        r matches Ok(n) ==> {
            let ap = appended_part(archive_entries(*a), change_views(adds@), string_views(deletes@), adds@.len());
            &&& writer_entries(*final(w)) == writer_entries(*old(w)) + ap.0
            &&& n == (if ap.1 <= u64::MAX { ap.1 } else { u64::MAX as nat })
        },
        r is Ok ==> writer_stored(*old(w)).len() <= writer_stored(*final(w)).len()
            && writer_stored(*final(w)).take(writer_stored(*old(w)).len() as int) == writer_stored(*old(w)),
        r is Ok ==> writer_times(*old(w)).len() <= writer_times(*final(w)).len()
            && writer_times(*final(w)).take(writer_times(*old(w)).len() as int) == writer_times(*old(w)),
        r matches Err(e) ==> e is Zip,
        written_fit(writer_entries(*old(w))) && written_fit(appended_part(archive_entries(*a),
            change_views(adds@), string_views(deletes@), adds@.len()).0) ==> r is Ok,
{
    let ghost es = archive_entries(*a);
    let ghost av = change_views(adds@);
    let ghost dv = string_views(deletes@);
    let ghost start = writer_entries(*w);
    let ghost full = appended_part(es, av, dv, av.len()).0;
    let ghost good = written_fit(start) && written_fit(full);
    assert(av.len() == adds@.len());
    assert(start == writer_entries(*old(w)));
    let ghost start_stored = writer_stored(*w);
    let ghost start_times = writer_times(*w);
    let mut written: u64 = 0;
    let mut k: usize = 0;
    while k < adds.len()
        invariant
            es == archive_entries(*a),
            av == change_views(adds@),
            dv == string_views(deletes@),
            full == appended_part(es, av, dv, av.len()).0,
            good == (written_fit(start) && written_fit(full)),
            start == writer_entries(*old(w)),
            start_stored == writer_stored(*old(w)),
            start_stored.len() <= writer_stored(*w).len(),
            writer_stored(*w).take(start_stored.len() as int) == start_stored,
            start_times == writer_times(*old(w)),
            start_times.len() <= writer_times(*w).len(),
            writer_times(*w).take(start_times.len() as int) == start_times,
            es == archive_entries(*a),
            names_fit(full),
            forall|t: int| 0 <= t < start.len() ==> taken_up(es, dv, (#[trigger] start[t]).0),
            0 <= k <= adds@.len(),
            writer_entries(*w) == start + appended_part(es, av, dv, k as nat).0,
            written == (if appended_part(es, av, dv, k as nat).1 <= u64::MAX {
                appended_part(es, av, dv, k as nat).1
            } else {
                u64::MAX as nat
            }),
        decreases adds@.len() - k,
    {
        let path = adds[k].path.as_str();
        let mut first = true;
        let mut j: usize = 0;
        while j < k
            invariant
                0 <= j <= k < adds@.len(),
                av == change_views(adds@),
                path@ == av[k as int].0,
                first <==> forall|m: int| 0 <= m < j ==> av[m].0 != av[k as int].0,
            decreases k - j,
        {
            assert(av[j as int].0 == adds@[j as int].path@);
            if str_eq(adds[j].path.as_str(), path) {
                first = false;
            }
            j = j + 1;
        }
        let taken = match archive_index_for_name(a, path) {
            Ok(_) => !contains_name(deletes, path),
            Err(_) => false,
        };
        assert(path@ == av[k as int].0);
        assert(taken == taken_up(es, dv, path@));
        assert(first == first_add(av, k as int));
        assert(av.take(k + 1)[k as int] == av[k as int]);
        if first && !taken {
            proof {
                lemma_lookup_last_some(av, k as int);
            }
            let last = match last_change_for(adds, path) {
                Some(m) => m,
                None => k,
            };
            let c = adds[last].content.as_str();
            let ghost before = writer_entries(*w);
            let ghost prev = appended_part(es, av, dv, k as nat).0;
            let ghost cur = appended_part(es, av, dv, (k + 1) as nat).0;
            proof {
                lemma_appended_prefix(es, av, dv, (k + 1) as nat, av.len());
                lemma_appended_prefix(es, av, dv, k as nat, av.len());
                lemma_appended_part_names(es, av, dv, k as nat);
                lemma_fit_take(full, cur.len() as int);
                lemma_fit_take(full, prev.len() as int);
                lemma_fit_parts(start, prev);
                assert(cur == prev.push((path@, Some(vstd::utf8::encode_utf8(c@)))));
                assert(cur[prev.len() as int] == full[prev.len() as int]);
                assert(name_fits(cur[prev.len() as int].0));
                assert(!has_written_named(before, path@)) by {
                    if has_written_named(before, path@) {
                        let t = choose|t: int| 0 <= t < before.len() && #[trigger] before[t].0 == path@;
                        if t < start.len() {
                            assert(before[t] == start[t]);
                            assert(taken_up(es, dv, start[t].0));
                        } else {
                            assert(before[t] == prev[t - start.len()]);
                            assert(0 <= t - start.len() < prev.len());
                            assert(exists|m: int| 0 <= m < k && #[trigger] av[m].0 == prev[t - start.len()].0);
                            let m = choose|m: int| 0 <= m < k && #[trigger] av[m].0 == prev[t - start.len()].0;
                            assert(av[m].0 == av[k as int].0);
                        }
                    }
                }
                assert(good ==> written_fit(before));
                assert(good ==> data_fits(vstd::utf8::encode_utf8(c@)));
            }
            let ghost stored_before = writer_stored(*w);
            let ghost times_before = writer_times(*w);
            write_text_entry(w, path, c, now)?;
            let len = bytes_of(c).len();
            written = written.saturating_add(len as u64);
            assert(writer_entries(*w) =~= start + appended_part(es, av, dv, (k + 1) as nat).0);
            assert(writer_stored(*w).take(start_stored.len() as int) =~= stored_before.take(start_stored.len() as int));
            assert(writer_times(*w).take(start_times.len() as int) =~= times_before.take(start_times.len() as int));
        } else {
            assert(appended_part(es, av, dv, (k + 1) as nat) == appended_part(es, av, dv, k as nat));
        }
        k = k + 1;
    }
    Ok(written)
}

/// Rewrites the package in `bytes` with the changes applied, and gives the new archive's
/// bytes and the number of bytes of new content written. Every add and update must be a text
/// entry (checked first). Entries named in `deletes` are dropped; an existing entry with an
/// add or update gets the new content (an add wins over an update); the adds whose paths no
/// kept entry has are appended at the end. The new archive reads back as `saved_entries` says.
/// It succeeds where every entry of the package can be read and every content written is under
/// 2 GiB. The zip crate panics on a name whose UTF-8 form is over 65535 bytes, so the names
/// written must fit (`save_archive_checked` tests that first).
pub fn save_archive(
    bytes: Vec<u8>,
    adds: &Vec<EntryChange>,
    updates: &Vec<EntryChange>,
    deletes: &Vec<String>,
) -> (r: Result<(Vec<u8>, u64), ViewerError>)
    requires
        first_non_textual(change_views(adds@) + change_views(updates@)) is None ==> (zip_parse(bytes@) matches Some(es)
            ==> names_fit(saved_entries(es, change_views(adds@), change_views(updates@), string_views(deletes@)))),
    ensures
        ({
            let av = change_views(adds@);
            let uv = change_views(updates@);
            let dv = string_views(deletes@);
            &&& (r matches Err(ViewerError::TextOnly(p))) <==> first_non_textual(av + uv) is Some
            &&& r matches Err(ViewerError::TextOnly(p)) ==> first_non_textual(av + uv) == Some(p@)
            &&& first_non_textual(av + uv) is None ==> ((r matches Err(ViewerError::NotZip(_)))
                <==> zip_parse(bytes@) is None)
            &&& r matches Ok(p) ==> {
                let es = zip_parse(bytes@).unwrap();
                &&& first_non_textual(av + uv) is None
                &&& zip_parse(bytes@) is Some
                &&& names_distinct(es)
                &&& reads_back_as(p.0@, saved_entries(es, av, uv, dv))
                &&& names_distinct(zip_parse(p.0@).unwrap())
                &&& stored_as(p.0@, kept_stored(es, zip_stored(bytes@), av, uv, dv, es.len()))
                &&& times_as(p.0@, kept_times(es, zip_times(bytes@), av, uv, dv, es.len()))
                &&& saved_written(es, av, uv, dv) <= u64::MAX ==> p.1 == saved_written(es, av, uv, dv)
            }
            &&& first_non_textual(av + uv) is None ==> (zip_parse(bytes@) matches Some(es)
                ==> (all_readable(es) && written_fit(saved_entries(es, av, uv, dv)) ==> r is Ok))
            &&& r matches Err(e) ==> (e is TextOnly || e is NotZip || e is Zip)
        }),
{
    if let Some(p) = find_non_textual(adds, updates) {
        return Err(ViewerError::TextOnly(p));
    }
    let ghost av = change_views(adds@);
    let ghost uv = change_views(updates@);
    let ghost dv = string_views(deletes@);
    let ghost copy_view = bytes@;
    let mut a = match archive_from_bytes(bytes) {
        Ok(a) => a,
        Err(e) => {
            return Err(ViewerError::NotZip(zip_error_text(&e)));
        },
    };
    let ghost es = archive_entries(a);
    let ghost kp = kept_part(es, av, uv, dv, es.len()).0;
    let ghost ap = appended_part(es, av, dv, av.len()).0;
    proof {
        assert(saved_entries(es, av, uv, dv) == kp + ap);
        lemma_fit_parts(kp, ap);
        lemma_kept_part_names(es, av, uv, dv, es.len());
        assert forall|t: int| 0 <= t < kp.len() implies taken_up(es, dv, (#[trigger] kp[t]).0) by {
            let j = choose|j: int| 0 <= j < es.len() && !dv.contains(es[j].0) && #[trigger] es[j].0 == kp[t].0;
            assert(has_entry_named(es, kp[t].0));
        }
    }
    let mut w = writer_new();
    let kept = write_kept_entries(&mut w, &mut a, adds, updates, deletes)?;
    let now = time_for_new_entries();
    let added = write_new_entries(&mut w, &a, adds, deletes, now)?;
    let ghost ws = writer_stored(w);
    let ghost wt = writer_times(w);
    let out = match writer_finish(w) {
        Ok(out) => out,
        Err(e) => {
            return Err(ViewerError::Zip(zip_error_text(&e)));
        },
    };
    proof {
        let ks = kept_stored(es, zip_stored(copy_view), av, uv, dv, es.len());
        assert forall|j: int| 0 <= j < ks.len() implies ((#[trigger] ks[j]) is Some ==> zip_stored(out@)[j] == ks[j]) by {
            assert(ws.take(ks.len() as int)[j] == ws[j]);
        }
        let kt = kept_times(es, zip_times(copy_view), av, uv, dv, es.len());
        assert forall|j: int| 0 <= j < kt.len() implies ((#[trigger] kt[j]) is Some ==> zip_times(out@)[j] == kt[j]) by {
            assert(wt.take(kt.len() as int)[j] == wt[j]);
        }
    }
    Ok((out, kept.saturating_add(added)))
}

/// Whether the UTF-8 form of `name` fits the zip format's 16-bit name length.
fn check_name_fits(name: &str) -> (r: bool)
    ensures
        r == name_fits(name@),
{
    bytes_of(name).len() <= 0xffff
}

/// Whether every name written for the existing entries fits (`names_fit` of `kept_part`).
fn check_kept_names(a: &ZipArchive<Cursor<Vec<u8>>>, adds: &Vec<EntryChange>, updates: &Vec<EntryChange>, deletes: &Vec<String>) -> (r: bool)
    ensures
        r == names_fit(kept_part(archive_entries(*a), change_views(adds@), change_views(updates@),
            string_views(deletes@), archive_entries(*a).len()).0),
{
    let ghost es = archive_entries(*a);
    let ghost av = change_views(adds@);
    let ghost uv = change_views(updates@);
    let ghost dv = string_views(deletes@);
    let ghost full = kept_part(es, av, uv, dv, es.len()).0;
    let n = archive_len(a);
    let mut i: usize = 0;
    while i < n
        invariant
            n == es.len(),
            es == archive_entries(*a),
            av == change_views(adds@),
            uv == change_views(updates@),
            dv == string_views(deletes@),
            full == kept_part(es, av, uv, dv, es.len()).0,
            0 <= i <= n,
            names_fit(kept_part(es, av, uv, dv, i as nat).0),
        decreases n - i,
    {
        let name = match archive_name_at(a, i) {
            Some(x) => x,
            None => {
                return false;
            },
        };
        let ghost prev = kept_part(es, av, uv, dv, i as nat).0;
        let ghost cur = kept_part(es, av, uv, dv, (i + 1) as nat).0;
        proof {
            assert((((i + 1) as nat) - 1) as nat == i as nat);
            assert(cur == (if dv.contains(es[i as int].0) {
                prev
            } else {
                match replacement(av, uv, es[i as int].0) {
                    Some(c) => prev.push((es[i as int].0, Some(vstd::utf8::encode_utf8(c)))),
                    None => prev.push((es[i as int].0, es[i as int].3)),
                }
            }));
        }
        if !contains_name(deletes, name.as_str()) {
            assert(cur.len() == prev.len() + 1 && cur[prev.len() as int].0 == name@);
            assert forall|t: int| 0 <= t < prev.len() implies cur[t] == prev[t] by {}
            if !check_name_fits(name.as_str()) {
                proof {
                    lemma_kept_prefix(es, av, uv, dv, (i + 1) as nat, es.len());
                    lemma_fit_take(full, cur.len() as int);
                    assert(!names_fit(cur));
                }
                return false;
            }
            assert(names_fit(cur));
        } else {
            assert(cur == prev);
        }
        i = i + 1;
    }
    true
}

/// Whether every path appended for the adds fits (`names_fit` of `appended_part`).
fn check_appended_names(a: &ZipArchive<Cursor<Vec<u8>>>, adds: &Vec<EntryChange>, deletes: &Vec<String>) -> (r: bool)
    ensures
        r == names_fit(appended_part(archive_entries(*a), change_views(adds@), string_views(deletes@), adds@.len()).0),
{
    let ghost es = archive_entries(*a);
    let ghost av = change_views(adds@);
    let ghost dv = string_views(deletes@);
    let ghost full = appended_part(es, av, dv, av.len()).0;
    assert(av.len() == adds@.len());
    let mut k: usize = 0;
    while k < adds.len()
        invariant
            es == archive_entries(*a),
            av == change_views(adds@),
            dv == string_views(deletes@),
            full == appended_part(es, av, dv, av.len()).0,
            0 <= k <= adds@.len(),
            names_fit(appended_part(es, av, dv, k as nat).0),
        decreases adds@.len() - k,
    {
        let path = adds[k].path.as_str();
        let mut first = true;
        let mut j: usize = 0;
        while j < k
            invariant
                0 <= j <= k < adds@.len(),
                av == change_views(adds@),
                path@ == av[k as int].0,
                first <==> forall|m: int| 0 <= m < j ==> av[m].0 != av[k as int].0,
            decreases k - j,
        {
            assert(av[j as int].0 == adds@[j as int].path@);
            if str_eq(adds[j].path.as_str(), path) {
                first = false;
            }
            j = j + 1;
        }
        let taken = match archive_index_for_name(a, path) {
            Ok(_) => !contains_name(deletes, path),
            Err(_) => false,
        };
        assert(taken == taken_up(es, dv, path@));
        assert(first == first_add(av, k as int));
        let ghost prev = appended_part(es, av, dv, k as nat).0;
        let ghost cur = appended_part(es, av, dv, (k + 1) as nat).0;
        if first && !taken {
            proof {
                assert(cur.len() == prev.len() + 1 && cur[prev.len() as int].0 == path@);
                assert forall|t: int| 0 <= t < prev.len() implies cur[t] == prev[t] by {}
            }
            if !check_name_fits(path) {
                proof {
                    lemma_appended_prefix(es, av, dv, (k + 1) as nat, av.len());
                    lemma_fit_take(full, cur.len() as int);
                    assert(!names_fit(cur));
                }
                return false;
            }
            assert(names_fit(cur));
        } else {
            assert(cur == prev);
        }
        k = k + 1;
    }
    true
}

/// Saves as `save_archive` does, after testing that the names to be written fit the zip
/// format; where one does not, it gives `NameTooLong` and writes nothing.
pub fn save_archive_checked(
    bytes: Vec<u8>,
    adds: &Vec<EntryChange>,
    updates: &Vec<EntryChange>,
    deletes: &Vec<String>,
) -> (r: Result<(Vec<u8>, u64), ViewerError>)
    ensures
        ({
            let av = change_views(adds@);
            let uv = change_views(updates@);
            let dv = string_views(deletes@);
            &&& (r matches Err(ViewerError::TextOnly(p))) <==> first_non_textual(av + uv) is Some
            &&& r matches Err(ViewerError::TextOnly(p)) ==> first_non_textual(av + uv) == Some(p@)
            &&& first_non_textual(av + uv) is None ==> ((r matches Err(ViewerError::NotZip(_)))
                <==> zip_parse(bytes@) is None)
            &&& first_non_textual(av + uv) is None ==> (zip_parse(bytes@) matches Some(es)
                ==> ((r matches Err(ViewerError::NameTooLong)) <==> !names_fit(saved_entries(es, av, uv, dv))))
            &&& r matches Ok(p) ==> {
                let es = zip_parse(bytes@).unwrap();
                &&& first_non_textual(av + uv) is None
                &&& zip_parse(bytes@) is Some
                &&& names_distinct(es)
                &&& reads_back_as(p.0@, saved_entries(es, av, uv, dv))
                &&& names_distinct(zip_parse(p.0@).unwrap())
                &&& stored_as(p.0@, kept_stored(es, zip_stored(bytes@), av, uv, dv, es.len()))
                &&& times_as(p.0@, kept_times(es, zip_times(bytes@), av, uv, dv, es.len()))
                &&& saved_written(es, av, uv, dv) <= u64::MAX ==> p.1 == saved_written(es, av, uv, dv)
            }
            &&& first_non_textual(av + uv) is None ==> (zip_parse(bytes@) matches Some(es)
                ==> (all_readable(es) && names_fit(saved_entries(es, av, uv, dv))
                && written_fit(saved_entries(es, av, uv, dv)) ==> r is Ok))
            &&& r matches Err(e) ==> (e is TextOnly || e is NotZip || e is Zip || e is NameTooLong)
        }),
{
    if let Some(p) = find_non_textual(adds, updates) {
        return Err(ViewerError::TextOnly(p));
    }
    let copy = bytes.clone();
    assert(copy@ == bytes@);
    let a = match archive_from_bytes(bytes) {
        Ok(a) => a,
        Err(e) => {
            return Err(ViewerError::NotZip(zip_error_text(&e)));
        },
    };
    let ghost es = archive_entries(a);
    let ghost av = change_views(adds@);
    let ghost uv = change_views(updates@);
    let ghost dv = string_views(deletes@);
    proof {
        assert(saved_entries(es, av, uv, dv) == kept_part(es, av, uv, dv, es.len()).0
            + appended_part(es, av, dv, av.len()).0);
        lemma_fit_parts(kept_part(es, av, uv, dv, es.len()).0, appended_part(es, av, dv, av.len()).0);
        assert(av.len() == adds@.len());
    }
    let kept_ok = check_kept_names(&a, adds, updates, deletes);
    let new_ok = check_appended_names(&a, adds, deletes);
    if !(kept_ok && new_ok) {
        proof {
            let x = kept_part(es, av, uv, dv, es.len()).0;
            let y = appended_part(es, av, dv, av.len()).0;
            if names_fit(x + y) {
                assert(names_fit(x) && names_fit(y));
            }
        }
        return Err(ViewerError::NameTooLong);
    }
    proof {
        let x = kept_part(es, av, uv, dv, es.len()).0;
        let y = appended_part(es, av, dv, av.len()).0;
        assert forall|i: int| 0 <= i < (x + y).len() implies name_fits((#[trigger] (x + y)[i]).0) by {
            if i < x.len() {
                assert((x + y)[i] == x[i]);
            } else {
                assert((x + y)[i] == y[i - x.len()]);
            }
        }
    }
    save_archive(copy, adds, updates, deletes)
}

} // verus!
